use prefab::{
    Field, FieldData, ModifyComponent, Patch, PatchEntity, Prefab, PrefabEntity, Registration,
    RemapTable, TypeRegistry, Value, World,
};
use prefab::PrefabError;
use prefab::writer::write_to_world;
use prefab::world::Record;

fn b(s: &str) -> Vec<u8> {
    s.as_bytes().to_vec()
}

fn registration(name: &str) -> Registration {
    Registration {
        name: b(name),
        reflect_component: true,
        custom_insert: false,
        map_entities: false,
    }
}

fn position(x: i64, y: i64) -> Value {
    Value {
        name: b("Position"),
        fields: vec![
            Field { path: b("x"), data: FieldData::Int(x) },
            Field { path: b("y"), data: FieldData::Int(y) },
        ],
    }
}

fn empty_patch() -> Patch {
    Patch { path: Vec::new(), modify: Vec::new(), ignore: Vec::new() }
}

fn world_with(names: &[&str]) -> World {
    let mut registry = TypeRegistry::new();
    for n in names {
        registry.register(registration(n));
    }
    World::new(registry)
}

fn record_of<'a>(world: &'a World, id: u64) -> &'a Record {
    world.records.iter().find(|r| r.id == id).unwrap()
}

#[test]
fn modify_overrides_one_field() {
    // Snapshot entity 1 holds Position{x:0,y:0}; the patch overrides "x"
    // with 5; the live record ends with Position{x:5,y:0}.
    let mut world = world_with(&["Position"]);
    let prefab = Prefab {
        entities: vec![PrefabEntity { entity: 1, components: vec![position(0, 0)] }],
    };
    let patch = Patch {
        path: Vec::new(),
        modify: vec![PatchEntity {
            entity: 1,
            append: Vec::new(),
            modify: vec![ModifyComponent {
                name: b("Position"),
                overrides: vec![Field { path: b("x"), data: FieldData::Int(5) }],
            }],
            remove: Vec::new(),
        }],
        ignore: Vec::new(),
    };
    let mut remap = RemapTable::new();
    let r = write_to_world(&patch, &prefab, &mut world, &mut remap);
    assert!(r.is_ok());
    let rid = remap.get(1).unwrap();
    let rec = record_of(&world, rid);
    assert_eq!(rec.values.len(), 1);
    assert_eq!(rec.values[0].name, b("Position"));
    assert_eq!(rec.values[0].fields[0].path, b("x"));
    assert_eq!(rec.values[0].fields[0].data, FieldData::Int(5));
    assert_eq!(rec.values[0].fields[1].path, b("y"));
    assert_eq!(rec.values[0].fields[1].data, FieldData::Int(0));
}

#[test]
fn ignore_skips_entity() {
    // Two snapshot entities; entity 2 is ignored; exactly one live record
    // exists afterwards.
    let mut world = world_with(&["Position"]);
    let prefab = Prefab {
        entities: vec![
            PrefabEntity { entity: 1, components: vec![position(1, 1)] },
            PrefabEntity { entity: 2, components: vec![position(2, 2)] },
        ],
    };
    let patch = Patch { path: Vec::new(), modify: Vec::new(), ignore: vec![2] };
    let mut remap = RemapTable::new();
    let r = write_to_world(&patch, &prefab, &mut world, &mut remap);
    assert!(r.is_ok());
    assert_eq!(world.records.len(), 1);
    assert!(remap.get(1).is_some());
    assert!(remap.get(2).is_none());
}

#[test]
fn ignore_beats_append() {
    // An ignored id produces no live record even when a matching patch
    // entity supplies append values for it.
    let mut world = world_with(&["Position"]);
    let prefab = Prefab {
        entities: vec![PrefabEntity { entity: 2, components: vec![position(2, 2)] }],
    };
    let patch = Patch {
        path: Vec::new(),
        modify: vec![PatchEntity {
            entity: 2,
            append: vec![position(9, 9)],
            modify: Vec::new(),
            remove: Vec::new(),
        }],
        ignore: vec![2],
    };
    let mut remap = RemapTable::new();
    let r = write_to_world(&patch, &prefab, &mut world, &mut remap);
    assert!(r.is_ok());
    assert_eq!(world.records.len(), 0);
    assert!(remap.get(2).is_none());
}

#[test]
fn remove_beats_modify() {
    // A type listed in both remove and modify is absent from the result.
    let mut world = world_with(&["Position", "Tag"]);
    let prefab = Prefab {
        entities: vec![PrefabEntity {
            entity: 1,
            components: vec![position(0, 0), Value { name: b("Tag"), fields: Vec::new() }],
        }],
    };
    let patch = Patch {
        path: Vec::new(),
        modify: vec![PatchEntity {
            entity: 1,
            append: Vec::new(),
            modify: vec![ModifyComponent {
                name: b("Position"),
                overrides: vec![Field { path: b("x"), data: FieldData::Int(5) }],
            }],
            remove: vec![b("Position")],
        }],
        ignore: Vec::new(),
    };
    let mut remap = RemapTable::new();
    let r = write_to_world(&patch, &prefab, &mut world, &mut remap);
    assert!(r.is_ok());
    let rec = record_of(&world, remap.get(1).unwrap());
    assert_eq!(rec.values.len(), 1);
    assert_eq!(rec.values[0].name, b("Tag"));
}

#[test]
fn patch_only_entity_appends() {
    // A patch entity with no snapshot counterpart produces a record with
    // exactly its append values.
    let mut world = world_with(&["Position"]);
    let prefab = Prefab { entities: Vec::new() };
    let patch = Patch {
        path: Vec::new(),
        modify: vec![PatchEntity {
            entity: 7,
            append: vec![position(3, 4)],
            modify: Vec::new(),
            remove: Vec::new(),
        }],
        ignore: Vec::new(),
    };
    let mut remap = RemapTable::new();
    let r = write_to_world(&patch, &prefab, &mut world, &mut remap);
    assert!(r.is_ok());
    assert_eq!(world.records.len(), 1);
    let rec = record_of(&world, remap.get(7).unwrap());
    assert_eq!(rec.values.len(), 1);
    assert_eq!(rec.values[0].name, b("Position"));
    assert_eq!(rec.values[0].fields[0].data, FieldData::Int(3));
    assert_eq!(rec.values[0].fields[1].data, FieldData::Int(4));
}

#[test]
fn hot_update_mutates_in_place() {
    // Re-running write on the same remap table mutates the same records
    // instead of creating duplicates.
    let mut world = world_with(&["Position"]);
    let prefab = Prefab {
        entities: vec![
            PrefabEntity { entity: 1, components: vec![position(0, 0)] },
            PrefabEntity { entity: 2, components: vec![position(1, 1)] },
        ],
    };
    let patch = empty_patch();
    let mut remap = RemapTable::new();
    assert!(write_to_world(&patch, &prefab, &mut world, &mut remap).is_ok());
    let count_first = world.records.len();
    assert!(write_to_world(&patch, &prefab, &mut world, &mut remap).is_ok());
    assert_eq!(world.records.len(), count_first);
    assert_eq!(remap.len(), 2);
}

#[test]
fn independent_tables_never_alias() {
    // Two instantiations through independent remap tables produce
    // disjoint live record identities.
    let mut world = world_with(&["Position"]);
    let prefab = Prefab {
        entities: vec![PrefabEntity { entity: 1, components: vec![position(0, 0)] }],
    };
    let patch = empty_patch();
    let mut remap1 = RemapTable::new();
    let mut remap2 = RemapTable::new();
    assert!(write_to_world(&patch, &prefab, &mut world, &mut remap1).is_ok());
    assert!(write_to_world(&patch, &prefab, &mut world, &mut remap2).is_ok());
    assert_eq!(world.records.len(), 2);
    assert_ne!(remap1.get(1).unwrap(), remap2.get(1).unwrap());
}

#[test]
fn unknown_type_is_fatal() {
    let mut world = world_with(&[]);
    let prefab = Prefab {
        entities: vec![PrefabEntity { entity: 1, components: vec![position(0, 0)] }],
    };
    let patch = empty_patch();
    let mut remap = RemapTable::new();
    let r = write_to_world(&patch, &prefab, &mut world, &mut remap);
    match r {
        Err(PrefabError::UnregisteredType { name }) => assert_eq!(name, b("Position")),
        _ => panic!("expected an unregistered type error"),
    }
}

#[test]
fn unregistered_component_is_fatal() {
    // The registry knows the name but without the component capability
    // and without a custom insert routine.
    let mut registry = TypeRegistry::new();
    registry.register(Registration {
        name: b("Position"),
        reflect_component: false,
        custom_insert: false,
        map_entities: false,
    });
    let mut world = World::new(registry);
    let prefab = Prefab {
        entities: vec![PrefabEntity { entity: 1, components: vec![position(0, 0)] }],
    };
    let patch = empty_patch();
    let mut remap = RemapTable::new();
    let r = write_to_world(&patch, &prefab, &mut world, &mut remap);
    match r {
        Err(PrefabError::UnregisteredComponent { name }) => assert_eq!(name, b("Position")),
        _ => panic!("expected an unregistered component error"),
    }
}

#[test]
fn custom_insert_bypasses_component_capability() {
    let mut registry = TypeRegistry::new();
    registry.register(Registration {
        name: b("Position"),
        reflect_component: false,
        custom_insert: true,
        map_entities: false,
    });
    let mut world = World::new(registry);
    let prefab = Prefab {
        entities: vec![PrefabEntity { entity: 1, components: vec![position(8, 9)] }],
    };
    let patch = empty_patch();
    let mut remap = RemapTable::new();
    assert!(write_to_world(&patch, &prefab, &mut world, &mut remap).is_ok());
    let rec = record_of(&world, remap.get(1).unwrap());
    assert_eq!(rec.values[0].fields[0].data, FieldData::Int(8));
}

#[test]
fn bad_patch_path_is_fatal() {
    let mut world = world_with(&["Position"]);
    let prefab = Prefab {
        entities: vec![PrefabEntity { entity: 1, components: vec![position(0, 0)] }],
    };
    let patch = Patch {
        path: Vec::new(),
        modify: vec![PatchEntity {
            entity: 1,
            append: Vec::new(),
            modify: vec![ModifyComponent {
                name: b("Position"),
                overrides: vec![Field { path: b("z"), data: FieldData::Int(5) }],
            }],
            remove: Vec::new(),
        }],
        ignore: Vec::new(),
    };
    let mut remap = RemapTable::new();
    let r = write_to_world(&patch, &prefab, &mut world, &mut remap);
    match r {
        Err(PrefabError::PatchContainsWrongPath { path }) => assert_eq!(path, b("z")),
        _ => panic!("expected a wrong path error"),
    }
}

#[test]
fn forward_references_are_rewritten() {
    // Entity 1 references entity 2 by its snapshot-local id; entity 2
    // appears later in the snapshot. After the write, the reference names
    // entity 2's live record.
    let mut registry = TypeRegistry::new();
    registry.register(registration("Position"));
    registry.register(Registration {
        name: b("Link"),
        reflect_component: true,
        custom_insert: false,
        map_entities: true,
    });
    let mut world = World::new(registry);
    let prefab = Prefab {
        entities: vec![
            PrefabEntity {
                entity: 1,
                components: vec![Value {
                    name: b("Link"),
                    fields: vec![Field { path: b("target"), data: FieldData::EntityRef(2) }],
                }],
            },
            PrefabEntity { entity: 2, components: vec![position(0, 0)] },
        ],
    };
    let patch = empty_patch();
    let mut remap = RemapTable::new();
    assert!(write_to_world(&patch, &prefab, &mut world, &mut remap).is_ok());
    let rid2 = remap.get(2).unwrap();
    let rec1 = record_of(&world, remap.get(1).unwrap());
    assert_eq!(rec1.values[0].fields[0].data, FieldData::EntityRef(rid2));
}

#[test]
fn append_joins_snapshot_values() {
    let mut world = world_with(&["Position", "Tag"]);
    let prefab = Prefab {
        entities: vec![PrefabEntity { entity: 1, components: vec![position(0, 0)] }],
    };
    let patch = Patch {
        path: Vec::new(),
        modify: vec![PatchEntity {
            entity: 1,
            append: vec![Value { name: b("Tag"), fields: Vec::new() }],
            modify: Vec::new(),
            remove: Vec::new(),
        }],
        ignore: Vec::new(),
    };
    let mut remap = RemapTable::new();
    assert!(write_to_world(&patch, &prefab, &mut world, &mut remap).is_ok());
    let rec = record_of(&world, remap.get(1).unwrap());
    assert_eq!(rec.values.len(), 2);
    assert_eq!(rec.values[0].name, b("Position"));
    assert_eq!(rec.values[1].name, b("Tag"));
}
