//! A prefab library: capture a set of live records ("entities") holding
//! type-erased component values into a portable snapshot, instantiate
//! snapshots back into a live collection under a structural patch, and track
//! live instances through spawn, hot-update and despawn.
//!
//! The live collection, the type registry and the component values are
//! modelled as plain data so that every algorithm in this crate is verified:
//! the writer (patch application with entity-reference remapping), the text
//! codec, the snapshot builder and the spawner state machine.
use vstd::prelude::*;

pub mod asset;
pub mod builder;
pub mod codec;
pub mod laws;
pub mod registry;
pub mod spawner;
pub mod value;
pub mod writer;
pub mod world;

verus! {

pub use crate::asset::{AssetEvent, ModifyComponent, Patch, PatchEntity, Prefab, PrefabAssets, PrefabEntity};
pub use crate::builder::PrefabBuilder;
pub use crate::codec::DecodeError;
pub use crate::registry::{Registration, TypeRegistry};
pub use crate::spawner::{
    prefab_update_system, ChangedPrefab, PrefabInstance, PrefabInstanceInfo, PrefabSpawner,
};
pub use crate::value::{Field, FieldData, Value};
pub use crate::world::{RemapTable, World};
pub use crate::writer::write_to_world;

/// The prefab systems wired together for a host application: the host
/// owns the live collection and the asset store, and drives one
/// [`PrefabPlugin::tick`] per frame, which runs
/// [`prefab_update_system`] over the changed handles and then one
/// [`PrefabSpawner::maintain`] pass, in that order.
pub struct PrefabPlugin;

impl PrefabPlugin {
    /// One tick: react to changed prefab handles, then run the
    /// maintenance pass. Returns the instances freshly requested for the
    /// changed handles, and the errors the maintenance pass surfaced.
    pub fn tick(
        spawner: &mut spawner::PrefabSpawner,
        world: &mut World,
        assets: &PrefabAssets,
        events: &Vec<AssetEvent>,
        changed: &Vec<ChangedPrefab>,
    ) -> (r: (Vec<PrefabInstance>, Vec<PrefabError>))
        requires
            old(world).wf(),
            old(spawner).spawned.next_instance + changed@.len() <= u128::MAX,
            old(spawner).events_seen <= events@.len(),
            ({
                let (ts, wp, td, nx) = spawner::update_system_fold(
                    old(spawner).to_spawn@,
                    old(spawner).with_parent@,
                    old(spawner).to_despawn@,
                    old(spawner).spawned.next_instance,
                    changed@,
                );
                let handles = old(spawner).updates@ + spawner::modified_handles(
                    events@,
                    old(spawner).events_seen as int,
                    old(spawner).spawned.prefabs_view(),
                );
                let s3 = spawner::spawn_fold(
                    spawner::SpawnQueueState {
                        instances: spawner::despawn_fold(
                            old(spawner).spawned.instances_view(),
                            old(world)@.records,
                            td,
                        ).0,
                        prefabs: old(spawner).spawned.prefabs_view(),
                        records: spawner::despawn_fold(
                            old(spawner).spawned.instances_view(),
                            old(world)@.records,
                            td,
                        ).1,
                        next_id: old(world).next_id,
                        retained: Seq::empty(),
                        errs: Seq::empty(),
                    },
                    old(world)@.registry,
                    assets@,
                    ts,
                );
                &&& old(world).next_id + spawner::spawn_budget(assets@, ts) <= u64::MAX
                &&& s3.next_id + spawner::updates_budget(assets@, s3.prefabs, handles)
                    <= u64::MAX
            }),
        ensures
            final(world).wf(),
            final(world)@.registry == old(world)@.registry,
            final(spawner).to_despawn@ == Seq::<u128>::empty(),
            final(spawner).updates@ == Seq::<u64>::empty(),
            final(spawner).events_seen == events@.len(),
            r.0@.len() == changed@.len(),
            ({
                let (ts, wp, td, nx) = spawner::update_system_fold(
                    old(spawner).to_spawn@,
                    old(spawner).with_parent@,
                    old(spawner).to_despawn@,
                    old(spawner).spawned.next_instance,
                    changed@,
                );
                let handles = old(spawner).updates@ + spawner::modified_handles(
                    events@,
                    old(spawner).events_seen as int,
                    old(spawner).spawned.prefabs_view(),
                );
                let (inst2, recs2) = spawner::despawn_fold(
                    old(spawner).spawned.instances_view(),
                    old(world)@.records,
                    td,
                );
                let s3 = spawner::spawn_fold(
                    spawner::SpawnQueueState {
                        instances: inst2,
                        prefabs: old(spawner).spawned.prefabs_view(),
                        records: recs2,
                        next_id: old(world).next_id,
                        retained: Seq::empty(),
                        errs: Seq::empty(),
                    },
                    old(world)@.registry,
                    assets@,
                    ts,
                );
                let u4 = spawner::updates_fold(
                    spawner::UpdateState {
                        instances: s3.instances,
                        records: s3.records,
                        next_id: s3.next_id,
                        errs: s3.errs,
                    },
                    old(world)@.registry,
                    assets@,
                    s3.prefabs,
                    handles,
                );
                let (recs5, kept5) = spawner::parent_fold(u4.records, u4.instances, wp);
                &&& final(spawner).spawned.next_instance == nx
                &&& final(spawner).spawned.instances_view() == u4.instances
                &&& final(spawner).spawned.prefabs_view() == s3.prefabs
                &&& final(spawner).to_spawn@ == s3.retained
                &&& final(spawner).with_parent@ == kept5
                &&& final(world)@.records == recs5
                &&& final(world).next_id == u4.next_id
                &&& r.1@.map_values(|e: PrefabError| e@) == u4.errs
            }),
    {
        let fresh = spawner::prefab_update_system(spawner, changed);
        let errs = spawner.maintain(world, assets, events);
        (fresh, errs)
    }
}

/// Why a write into the live collection failed.
#[derive(Debug)]
pub enum PrefabError {
    /// The type is known to the registry but lacks the component
    /// capability, and no custom insert routine stands in.
    UnregisteredComponent { name: Vec<u8> },
    /// The type name is not in the registry at all.
    UnregisteredType { name: Vec<u8> },
    /// The prefab handle does not resolve, e.g. the asset is still loading.
    NonExistentPrefab { handle: u64 },
    /// A patch override names a field path that does not resolve against
    /// the value it modifies.
    PatchContainsWrongPath { path: Vec<u8> },
}

/// Mathematical model of a [`PrefabError`].
#[verifier::ext_equal]
pub ghost enum ErrorModel {
    UnregisteredComponent { name: Seq<u8> },
    UnregisteredType { name: Seq<u8> },
    NonExistentPrefab { handle: u64 },
    PatchContainsWrongPath { path: Seq<u8> },
}

impl View for PrefabError {
    type V = ErrorModel;

    open spec fn view(&self) -> ErrorModel {
        match self {
            PrefabError::UnregisteredComponent { name } => ErrorModel::UnregisteredComponent {
                name: name@,
            },
            PrefabError::UnregisteredType { name } => ErrorModel::UnregisteredType { name: name@ },
            PrefabError::NonExistentPrefab { handle } => ErrorModel::NonExistentPrefab {
                handle: *handle,
            },
            PrefabError::PatchContainsWrongPath { path } => ErrorModel::PatchContainsWrongPath {
                path: path@,
            },
        }
    }
}

} // verus!
