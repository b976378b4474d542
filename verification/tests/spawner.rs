use prefab::{
    AssetEvent, ChangedPrefab, Field, FieldData, Prefab, PrefabAssets, PrefabEntity,
    PrefabSpawner, Registration, TypeRegistry, Value, World,
};
use prefab::spawner::prefab_update_system;

fn b(s: &str) -> Vec<u8> {
    s.as_bytes().to_vec()
}

fn registration(name: &str) -> Registration {
    Registration {
        name: b(name),
        reflect_component: true,
        custom_insert: false,
        map_entities: false,
    }
}

fn position(x: i64, y: i64) -> Value {
    Value {
        name: b("Position"),
        fields: vec![
            Field { path: b("x"), data: FieldData::Int(x) },
            Field { path: b("y"), data: FieldData::Int(y) },
        ],
    }
}

fn two_entity_prefab() -> Prefab {
    Prefab {
        entities: vec![
            PrefabEntity { entity: 1, components: vec![position(0, 0)] },
            PrefabEntity { entity: 2, components: vec![position(1, 1)] },
        ],
    }
}

fn world_with_position() -> World {
    let mut registry = TypeRegistry::new();
    registry.register(registration("Position"));
    World::new(registry)
}

#[test]
fn pending_spawn_retries_until_resolvable() {
    // A spawn for a handle that does not resolve stays queued across two
    // maintenance ticks, then completes on the third once resolvable,
    // producing exactly one live instance.
    let mut world = world_with_position();
    let mut assets = PrefabAssets::new();
    let mut spawner = PrefabSpawner::new();
    let events: Vec<AssetEvent> = Vec::new();

    let inst = spawner.spawn(7, None);

    let errs = spawner.maintain(&mut world, &assets, &events);
    assert!(errs.is_empty());
    assert_eq!(spawner.to_spawn.len(), 1);
    assert!(!spawner.is_ready(&inst));
    assert_eq!(world.records.len(), 0);

    let errs = spawner.maintain(&mut world, &assets, &events);
    assert!(errs.is_empty());
    assert_eq!(spawner.to_spawn.len(), 1);
    assert!(!spawner.is_ready(&inst));

    assets.insert(7, two_entity_prefab());
    let errs = spawner.maintain(&mut world, &assets, &events);
    assert!(errs.is_empty());
    assert_eq!(spawner.to_spawn.len(), 0);
    assert!(spawner.is_ready(&inst));
    assert_eq!(spawner.spawned.instances.len(), 1);
    assert_eq!(world.records.len(), 2);
}

#[test]
fn despawn_destroys_every_record() {
    // Despawning an instance destroys every live record previously
    // mapped for it; info afterwards returns none.
    let mut world = world_with_position();
    let mut assets = PrefabAssets::new();
    assets.insert(7, two_entity_prefab());
    let mut spawner = PrefabSpawner::new();

    let inst = spawner.spawn_sync(&mut world, &assets, 7).unwrap();
    assert_eq!(world.records.len(), 2);
    assert!(spawner.info(&inst).is_some());
    assert_eq!(spawner.info(&inst).unwrap().entities().len(), 2);

    spawner.despawn_sync(&mut world, &inst);
    assert_eq!(world.records.len(), 0);
    assert!(spawner.info(&inst).is_none());
    assert!(!spawner.is_ready(&inst));
}

#[test]
fn queued_despawn_runs_in_maintenance() {
    let mut world = world_with_position();
    let mut assets = PrefabAssets::new();
    assets.insert(7, two_entity_prefab());
    let mut spawner = PrefabSpawner::new();
    let events: Vec<AssetEvent> = Vec::new();

    let inst = spawner.spawn(7, None);
    let errs = spawner.maintain(&mut world, &assets, &events);
    assert!(errs.is_empty());
    assert_eq!(world.records.len(), 2);

    spawner.despawn(&inst);
    let errs = spawner.maintain(&mut world, &assets, &events);
    assert!(errs.is_empty());
    assert_eq!(world.records.len(), 0);
    assert!(spawner.info(&inst).is_none());
}

#[test]
fn modified_event_hot_updates_instances() {
    // A Modified event for a tracked prefab re-runs the write against the
    // instance's records in place: values change, no records are added.
    let mut world = world_with_position();
    let mut assets = PrefabAssets::new();
    assets.insert(7, two_entity_prefab());
    let mut spawner = PrefabSpawner::new();
    let mut events: Vec<AssetEvent> = Vec::new();

    let inst = spawner.spawn(7, None);
    spawner.maintain(&mut world, &assets, &events);
    assert_eq!(world.records.len(), 2);
    let rid = spawner.info(&inst).unwrap().entities()[0];

    // The asset changes: entity 1 now holds Position{x:9,y:9}.
    let mut assets = PrefabAssets::new();
    assets.insert(
        7,
        Prefab {
            entities: vec![
                PrefabEntity { entity: 1, components: vec![position(9, 9)] },
                PrefabEntity { entity: 2, components: vec![position(1, 1)] },
            ],
        },
    );
    events.push(AssetEvent::Modified { handle: 7 });
    let errs = spawner.maintain(&mut world, &assets, &events);
    assert!(errs.is_empty());
    assert_eq!(world.records.len(), 2);
    let rec = world.records.iter().find(|r| r.id == rid).unwrap();
    assert_eq!(rec.values[0].fields[0].data, FieldData::Int(9));
}

#[test]
fn events_are_processed_once() {
    // The reader position persists: an event already seen is not acted on
    // again by a later tick.
    let mut world = world_with_position();
    let mut assets = PrefabAssets::new();
    assets.insert(7, two_entity_prefab());
    let mut spawner = PrefabSpawner::new();
    let mut events: Vec<AssetEvent> = Vec::new();

    spawner.spawn(7, None);
    spawner.maintain(&mut world, &assets, &events);

    events.push(AssetEvent::Modified { handle: 7 });
    spawner.maintain(&mut world, &assets, &events);
    assert_eq!(spawner.events_seen, 1);

    // Nothing new: the tick queues no further update for the old event.
    spawner.maintain(&mut world, &assets, &events);
    assert_eq!(spawner.updates.len(), 0);
    assert_eq!(spawner.events_seen, 1);
}

#[test]
fn created_and_removed_events_are_ignored() {
    let mut world = world_with_position();
    let mut assets = PrefabAssets::new();
    assets.insert(7, two_entity_prefab());
    let mut spawner = PrefabSpawner::new();
    let mut events: Vec<AssetEvent> = Vec::new();

    spawner.spawn(7, None);
    spawner.maintain(&mut world, &assets, &events);
    let before = world.records.len();

    events.push(AssetEvent::Created { handle: 7 });
    events.push(AssetEvent::Removed { handle: 7 });
    let errs = spawner.maintain(&mut world, &assets, &events);
    assert!(errs.is_empty());
    assert_eq!(world.records.len(), before);
}

#[test]
fn parent_attachment_targets_roots() {
    // Once the instance is spawned, records without a parent relationship
    // are attached to the requested parent; records already parented stay.
    let mut world = world_with_position();
    let mut assets = PrefabAssets::new();
    assets.insert(7, two_entity_prefab());
    let mut spawner = PrefabSpawner::new();
    let events: Vec<AssetEvent> = Vec::new();

    let holder = world.spawn_empty();
    let inst = spawner.spawn(7, Some(holder));
    let errs = spawner.maintain(&mut world, &assets, &events);
    assert!(errs.is_empty());
    assert_eq!(spawner.with_parent.len(), 0);

    for rid in spawner.info(&inst).unwrap().entities() {
        let rec = world.records.iter().find(|r| r.id == rid).unwrap();
        assert_eq!(rec.parent, Some(holder));
    }
}

#[test]
fn update_system_respawns_changed_handles() {
    let mut spawner = PrefabSpawner::new();
    let old_inst = spawner.spawn(7, Some(3));
    let changed = vec![ChangedPrefab { entity: 3, handle: 8, instance: Some(old_inst) }];
    let fresh = prefab_update_system(&mut spawner, &changed);
    assert_eq!(fresh.len(), 1);
    assert_eq!(spawner.to_spawn.len(), 2);
    assert_eq!(spawner.to_spawn[1], (8, fresh[0].0));
    assert_eq!(spawner.to_despawn.len(), 1);
    assert_eq!(spawner.to_despawn[0], old_inst.0);
    assert_eq!(spawner.with_parent.len(), 2);
    assert_eq!(spawner.with_parent[1], (fresh[0].0, 3));
}

#[test]
fn plugin_tick_runs_both_systems() {
    let mut world = world_with_position();
    let mut assets = PrefabAssets::new();
    assets.insert(7, two_entity_prefab());
    let mut spawner = PrefabSpawner::new();
    let events: Vec<AssetEvent> = Vec::new();

    let holder = world.spawn_empty();
    let changed = vec![ChangedPrefab { entity: holder, handle: 7, instance: None }];
    let (fresh, errs) = prefab::PrefabPlugin::tick(
        &mut spawner,
        &mut world,
        &assets,
        &events,
        &changed,
    );
    assert_eq!(fresh.len(), 1);
    assert!(errs.is_empty());
    assert!(spawner.is_ready(&fresh[0]));
    // The holder plus the prefab's two records.
    assert_eq!(world.records.len(), 3);
    for rid in spawner.info(&fresh[0]).unwrap().entities() {
        let rec = world.records.iter().find(|r| r.id == rid).unwrap();
        assert_eq!(rec.parent, Some(holder));
    }
}

#[test]
fn sync_spawn_reports_missing_prefab() {
    let mut world = world_with_position();
    let assets = PrefabAssets::new();
    let mut spawner = PrefabSpawner::new();
    let r = spawner.spawn_sync(&mut world, &assets, 42);
    assert!(matches!(r, Err(prefab::PrefabError::NonExistentPrefab { handle: 42 })));
}

#[test]
fn update_sync_reconciles_in_place() {
    let mut world = world_with_position();
    let mut assets = PrefabAssets::new();
    assets.insert(7, two_entity_prefab());
    let mut spawner = PrefabSpawner::new();
    let inst = spawner.spawn_sync(&mut world, &assets, 7).unwrap();
    let count = world.records.len();

    let mut assets = PrefabAssets::new();
    assets.insert(
        7,
        Prefab {
            entities: vec![
                PrefabEntity { entity: 1, components: vec![position(5, 5)] },
                PrefabEntity { entity: 2, components: vec![position(6, 6)] },
            ],
        },
    );
    let errs = spawner.update_sync(&mut world, &assets, 7);
    assert!(errs.is_empty());
    assert_eq!(world.records.len(), count);
    let rid = spawner.info(&inst).unwrap().entities()[0];
    let rec = world.records.iter().find(|r| r.id == rid).unwrap();
    assert_eq!(rec.values[0].fields[0].data, FieldData::Int(5));
}
