use prefab::{PrefabBuilder, Registration, TypeRegistry, Value, World};

fn component(name: &str) -> Value {
    Value { name: name.as_bytes().to_vec(), fields: Vec::new() }
}

fn registration(name: &str) -> Registration {
    Registration {
        name: name.as_bytes().to_vec(),
        reflect_component: true,
        custom_insert: false,
        map_entities: false,
    }
}

#[test]
fn extract_one_entity() {
    let mut registry = TypeRegistry::new();
    registry.register(registration("ComponentA"));
    let mut world = World::new(registry);

    let entity = world.spawn_empty();
    world.records[0].values.push(component("ComponentA"));
    world.records[0].values.push(component("ComponentB"));

    let mut builder = PrefabBuilder::from_world(&world);
    builder.extract_entity(&world, entity);
    let scene = builder.build();

    assert_eq!(scene.entities.len(), 1);
    assert_eq!(scene.entities[0].entity, entity as u32);
    assert_eq!(scene.entities[0].components.len(), 1);
    assert_eq!(scene.entities[0].components[0].name, b"ComponentA".to_vec());
}

#[test]
fn extract_one_entity_twice() {
    let mut registry = TypeRegistry::new();
    registry.register(registration("ComponentA"));
    let mut world = World::new(registry);

    let entity = world.spawn_empty();
    world.records[0].values.push(component("ComponentA"));
    world.records[0].values.push(component("ComponentB"));

    let mut builder = PrefabBuilder::from_world(&world);
    builder.extract_entity(&world, entity);
    builder.extract_entity(&world, entity);
    let scene = builder.build();

    assert_eq!(scene.entities.len(), 1);
    assert_eq!(scene.entities[0].entity, entity as u32);
    assert_eq!(scene.entities[0].components.len(), 1);
    assert_eq!(scene.entities[0].components[0].name, b"ComponentA".to_vec());
}

#[test]
fn extract_one_entity_two_components() {
    let mut registry = TypeRegistry::new();
    registry.register(registration("ComponentA"));
    registry.register(registration("ComponentB"));
    let mut world = World::new(registry);

    let entity = world.spawn_empty();
    world.records[0].values.push(component("ComponentA"));
    world.records[0].values.push(component("ComponentB"));

    let mut builder = PrefabBuilder::from_world(&world);
    builder.extract_entity(&world, entity);
    let scene = builder.build();

    assert_eq!(scene.entities.len(), 1);
    assert_eq!(scene.entities[0].entity, entity as u32);
    assert_eq!(scene.entities[0].components.len(), 2);
    assert_eq!(scene.entities[0].components[0].name, b"ComponentA".to_vec());
    assert_eq!(scene.entities[0].components[1].name, b"ComponentB".to_vec());
}

#[test]
fn from_world_captures_everything() {
    let mut registry = TypeRegistry::new();
    registry.register(registration("ComponentA"));
    let mut world = World::new(registry);

    let e1 = world.spawn_empty();
    world.records[0].values.push(component("ComponentA"));
    let e2 = world.spawn_empty();
    world.records[1].values.push(component("ComponentB"));

    let scene = prefab::Prefab::from_world(&world);
    assert_eq!(scene.entities.len(), 2);
    assert_eq!(scene.entities[0].entity, e1 as u32);
    assert_eq!(scene.entities[0].components.len(), 1);
    assert_eq!(scene.entities[1].entity, e2 as u32);
    // ComponentB is not registered, so nothing of e2 is captured.
    assert_eq!(scene.entities[1].components.len(), 0);
}

#[test]
fn extract_query() {
    let mut registry = TypeRegistry::new();
    registry.register(registration("ComponentA"));
    registry.register(registration("ComponentB"));
    let mut world = World::new(registry);

    let entity_a_b = world.spawn_empty();
    world.records[0].values.push(component("ComponentA"));
    world.records[0].values.push(component("ComponentB"));
    let entity_a = world.spawn_empty();
    world.records[1].values.push(component("ComponentA"));
    let _entity_b = world.spawn_empty();
    world.records[2].values.push(component("ComponentB"));

    // The model of a query for every record holding ComponentA.
    let mut query: Vec<u64> = Vec::new();
    for record in &world.records {
        if record.values.iter().any(|v| v.name == b"ComponentA".to_vec()) {
            query.push(record.id);
        }
    }

    let mut builder = PrefabBuilder::from_world(&world);
    builder.extract_entities(&world, &query);
    let scene = builder.build();

    assert_eq!(scene.entities.len(), 2);
    let mut scene_entities = vec![scene.entities[0].entity, scene.entities[1].entity];
    scene_entities.sort();
    assert_eq!(scene_entities, [entity_a_b as u32, entity_a as u32]);
}
