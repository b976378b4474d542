//! The instance registry: tracks outstanding spawn and despawn requests
//! and live instances, reacts to asset-change notifications, and performs
//! deferred parent attachment. All mutation of the live collection happens
//! in one maintenance pass per tick; "waiting for a prefab to load" is a
//! non-blocking retry on a later tick.
use crate::asset::{assets_get, AssetEvent, Patch, PrefabAssets, PrefabEntityModel};
use crate::world::{RemapTable, World};
use crate::writer::{st_of, write_spec, write_to_world, WriteState};
use crate::PrefabError;
use vstd::prelude::*;

verus! {

/// Instance identifier of a spawned prefab: the opaque handle clients hold
/// instead of raw live identities. Minted once per spawn request, never
/// reused.
#[derive(Clone, Copy, PartialEq, Eq, Structural, Debug)]
pub struct PrefabInstance(pub u128);

/// What the registry keeps per live instance: the remap table from the
/// instance's snapshot-local ids to its live records, retained so that
/// hot-updates target the same records.
pub struct PrefabInstanceInfo {
    pub entity_map: RemapTable,
}

impl View for PrefabInstanceInfo {
    type V = Seq<(u32, u64)>;

    open spec fn view(&self) -> Seq<(u32, u64)> {
        self.entity_map@
    }
}

/// The empty patch, under which a prefab is instantiated verbatim.
pub open spec fn empty_patch() -> crate::asset::PatchModel {
    crate::asset::PatchModel { path: Seq::empty(), modify: Seq::empty(), ignore: Seq::empty() }
}

impl PrefabInstanceInfo {
    /// An instance with no live records yet.
    pub fn new() -> (r: PrefabInstanceInfo)
        ensures
            r@ == Seq::<(u32, u64)>::empty(),
    {
        PrefabInstanceInfo { entity_map: RemapTable::new() }
    }

    /// The live records of this instance, in creation order.
    pub fn entities(&self) -> (r: Vec<u64>)
        ensures
            r@ == self@.map_values(|e: (u32, u64)| e.1),
    {
        self.entity_map.live_ids()
    }

    /// Write the prefab under `handle` into the collection through this
    /// instance's remap table, with the empty patch: first-time records
    /// are created, records of an earlier pass are updated in place. Fails
    /// with `NonExistentPrefab` exactly when the handle does not resolve.
    pub fn spawn(&mut self, world: &mut World, assets: &PrefabAssets, handle: u64) -> (r: Result<
        (),
        PrefabError,
    >)
        requires
            old(world).wf(),
            match assets_get(assets@, handle) {
                Some(p) => old(world).next_id + p.len() <= u64::MAX,
                None => true,
            },
        ensures
            match assets_get(assets@, handle) {
                None => {
                    &&& r matches Err(e) && e@ == (crate::ErrorModel::NonExistentPrefab {
                        handle,
                    })
                    &&& final(world)@ == old(world)@
                    &&& final(self)@ == old(self)@
                },
                Some(pm) => {
                    let st0 = st_of(old(world)@, old(self)@, Seq::empty());
                    let (st, err) = write_spec(empty_patch(), pm, old(world)@.registry, st0);
                    &&& final(world)@.records == st.records
                    &&& final(world).next_id == st.next_id
                    &&& final(self)@ == st.remap
                    &&& final(world)@.registry == old(world)@.registry
                    &&& match err {
                        None => r is Ok,
                        Some(es) => r matches Err(e) && e@ == es,
                    }
                },
            },
            final(world).wf(),
    {
        match assets.get(handle) {
            None => Err(PrefabError::NonExistentPrefab { handle }),
            Some(prefab) => {
                let patch = Patch::default();
                proof {
                    assert(patch@ =~= empty_patch());
                }
                write_to_world(&patch, prefab, world, &mut self.entity_map)
            },
        }
    }

    /// Destroy every live record this instance still maps.
    pub fn despawn(&mut self, world: &mut World)
        requires
            old(world).wf(),
        ensures
            final(world)@.records == despawn_records(old(world)@.records, old(self)@),
            final(world).next_id == old(world).next_id,
            final(world)@.registry == old(world)@.registry,
            final(world).wf(),
            final(self)@ == old(self)@,
    {
        let ghost em = self@;
        let mut i: usize = 0;
        proof {
            assert(em.skip(0) =~= em);
        }
        while i < self.entity_map.entries.len()
            invariant
                i <= self.entity_map.entries.len(),
                em == self@,
                world.wf(),
                world.next_id == old(world).next_id,
                world@.registry == old(world)@.registry,
                despawn_records(old(world)@.records, em) == despawn_records(
                    world@.records,
                    em.skip(i as int),
                ),
            decreases self.entity_map.entries.len() - i,
        {
            proof {
                assert(em.skip(i as int)[0] == em[i as int]);
                assert(em.skip(i as int).drop_first() =~= em.skip(i + 1));
            }
            let id = self.entity_map.entries[i].1;
            world.despawn(id);
            i += 1;
        }
        proof {
            assert(em.skip(em.len() as int) =~= Seq::<(u32, u64)>::empty());
        }
    }
}

/// The records left after destroying every record an instance maps, in
/// table order.
pub open spec fn despawn_records(
    records: Seq<crate::world::RecordModel>,
    remap: Seq<(u32, u64)>,
) -> Seq<crate::world::RecordModel>
    decreases remap.len(),
{
    if remap.len() == 0 {
        records
    } else {
        let r1 = match crate::world::find_record(records, remap[0].1) {
            Some(i) => records.remove(i),
            None => records,
        };
        despawn_records(r1, remap.drop_first())
    }
}

/// The position of the first instance entry with the given id.
pub open spec fn inst_find(instances: Seq<(u128, Seq<(u32, u64)>)>, id: u128) -> Option<int>
    decreases instances.len(),
{
    if instances.len() == 0 {
        None
    } else if instances[0].0 == id {
        Some(0int)
    } else {
        match inst_find(instances.drop_first(), id) {
            Some(i) => Some(i + 1),
            None => None,
        }
    }
}

/// What [`inst_find`] returns.
pub proof fn lemma_inst_find(instances: Seq<(u128, Seq<(u32, u64)>)>, id: u128)
    ensures
        match inst_find(instances, id) {
            Some(i) => 0 <= i < instances.len() && instances[i].0 == id && forall|j: int|
                0 <= j < i ==> (#[trigger] instances[j]).0 != id,
            None => forall|j: int| 0 <= j < instances.len() ==> (#[trigger] instances[j]).0 != id,
        },
    decreases instances.len(),
{
    if instances.len() > 0 && instances[0].0 != id {
        lemma_inst_find(instances.drop_first(), id);
        assert forall|j: int| 1 <= j < instances.len() implies instances.drop_first()[j - 1]
            == instances[j] by {}
    }
}

/// The position of the first reverse-index entry for the given handle.
pub open spec fn bucket_find(prefabs: Seq<(u64, Seq<u128>)>, handle: u64) -> Option<int>
    decreases prefabs.len(),
{
    if prefabs.len() == 0 {
        None
    } else if prefabs[0].0 == handle {
        Some(0int)
    } else {
        match bucket_find(prefabs.drop_first(), handle) {
            Some(i) => Some(i + 1),
            None => None,
        }
    }
}

/// What [`bucket_find`] returns.
pub proof fn lemma_bucket_find(prefabs: Seq<(u64, Seq<u128>)>, handle: u64)
    ensures
        match bucket_find(prefabs, handle) {
            Some(i) => 0 <= i < prefabs.len() && prefabs[i].0 == handle && forall|j: int|
                0 <= j < i ==> (#[trigger] prefabs[j]).0 != handle,
            None => forall|j: int| 0 <= j < prefabs.len() ==> (#[trigger] prefabs[j]).0 != handle,
        },
    decreases prefabs.len(),
{
    if prefabs.len() > 0 && prefabs[0].0 != handle {
        lemma_bucket_find(prefabs.drop_first(), handle);
        assert forall|j: int| 1 <= j < prefabs.len() implies prefabs.drop_first()[j - 1]
            == prefabs[j] by {}
    }
}

/// An instance id indexed under its prefab handle: appended to the
/// handle's bucket, or opening a new bucket.
pub open spec fn bucket_push(prefabs: Seq<(u64, Seq<u128>)>, handle: u64, id: u128) -> Seq<
    (u64, Seq<u128>),
> {
    match bucket_find(prefabs, handle) {
        Some(i) => prefabs.update(i, (handle, prefabs[i].1.push(id))),
        None => prefabs.push((handle, Seq::empty().push(id))),
    }
}

/// The tracked instances and the reverse index from prefab handles to the
/// instances spawned from them. Every instance id appears in exactly the
/// bucket of the handle it was spawned from.
pub struct Spawned {
    pub prefabs: Vec<(u64, Vec<u128>)>,
    pub instances: Vec<(u128, PrefabInstanceInfo)>,
    pub next_instance: u128,
}

impl Spawned {
    /// The reverse index, as models.
    pub open spec fn prefabs_view(&self) -> Seq<(u64, Seq<u128>)> {
        self.prefabs@.map_values(|e: (u64, Vec<u128>)| (e.0, e.1@))
    }

    /// The instance table, as models.
    pub open spec fn instances_view(&self) -> Seq<(u128, Seq<(u32, u64)>)> {
        self.instances@.map_values(|e: (u128, PrefabInstanceInfo)| (e.0, e.1@))
    }

    /// An empty registry.
    pub fn new() -> (r: Spawned)
        ensures
            r.prefabs_view() == Seq::<(u64, Seq<u128>)>::empty(),
            r.instances_view() == Seq::<(u128, Seq<(u32, u64)>)>::empty(),
            r.next_instance == 0,
    {
        let r = Spawned { prefabs: Vec::new(), instances: Vec::new(), next_instance: 0 };
        proof {
            assert(r.prefabs_view() =~= Seq::<(u64, Seq<u128>)>::empty());
            assert(r.instances_view() =~= Seq::<(u128, Seq<(u32, u64)>)>::empty());
        }
        r
    }

    /// Mint a fresh instance id; ids are never reused.
    pub fn generate_id(&mut self) -> (r: u128)
        requires
            old(self).next_instance < u128::MAX,
        ensures
            r == old(self).next_instance,
            final(self).next_instance == old(self).next_instance + 1,
            final(self).prefabs_view() == old(self).prefabs_view(),
            final(self).instances_view() == old(self).instances_view(),
    {
        let id = self.next_instance;
        self.next_instance = self.next_instance + 1;
        id
    }

    /// The position of the instance with the given id.
    pub fn find_instance(&self, id: u128) -> (r: Option<usize>)
        ensures
            match r {
                Some(i) => inst_find(self.instances_view(), id) == Some(i as int),
                None => inst_find(self.instances_view(), id) == None::<int>,
            },
    {
        let ghost iv = self.instances_view();
        let mut i: usize = 0;
        while i < self.instances.len()
            invariant
                i <= self.instances.len(),
                iv == self.instances_view(),
                forall|j: int| 0 <= j < i ==> (#[trigger] iv[j]).0 != id,
            decreases self.instances.len() - i,
        {
            if self.instances[i].0 == id {
                proof {
                    assert(iv[i as int].0 == id);
                    lemma_inst_find(iv, id);
                    match inst_find(iv, id) {
                        Some(k) => {
                            assert(!(k < i) && !(k > i));
                        },
                        None => {},
                    }
                }
                return Some(i);
            }
            i += 1;
        }
        proof {
            lemma_inst_find(iv, id);
        }
        None
    }

    /// The position of the bucket for the given handle.
    pub fn find_bucket(&self, handle: u64) -> (r: Option<usize>)
        ensures
            match r {
                Some(i) => bucket_find(self.prefabs_view(), handle) == Some(i as int),
                None => bucket_find(self.prefabs_view(), handle) == None::<int>,
            },
    {
        let ghost pv = self.prefabs_view();
        let mut i: usize = 0;
        while i < self.prefabs.len()
            invariant
                i <= self.prefabs.len(),
                pv == self.prefabs_view(),
                forall|j: int| 0 <= j < i ==> (#[trigger] pv[j]).0 != handle,
            decreases self.prefabs.len() - i,
        {
            if self.prefabs[i].0 == handle {
                proof {
                    assert(pv[i as int].0 == handle);
                    lemma_bucket_find(pv, handle);
                    match bucket_find(pv, handle) {
                        Some(k) => {
                            assert(!(k < i) && !(k > i));
                        },
                        None => {},
                    }
                }
                return Some(i);
            }
            i += 1;
        }
        proof {
            lemma_bucket_find(pv, handle);
        }
        None
    }

    /// Record a freshly spawned instance under its handle's bucket.
    fn index_instance(&mut self, handle: u64, id: u128, info: PrefabInstanceInfo)
        ensures
            final(self).instances_view() == old(self).instances_view().push((id, info@)),
            final(self).prefabs_view() == bucket_push(old(self).prefabs_view(), handle, id),
            final(self).next_instance == old(self).next_instance,
    {
        let ghost iv = self.instances_view();
        let ghost pv = self.prefabs_view();
        self.instances.push((id, info));
        proof {
            assert(self.instances_view() =~= iv.push((id, self.instances@.last().1@)));
        }
        match self.find_bucket(handle) {
            Some(i) => {
                proof {
                    lemma_bucket_find(pv, handle);
                }
                let mut entry = self.prefabs.remove(i);
                entry.1.push(id);
                self.prefabs.insert(i, entry);
                proof {
                    assert(self.prefabs_view() =~= pv.update(
                        i as int,
                        (handle, pv[i as int].1.push(id)),
                    ));
                }
            },
            None => {
                let mut bucket: Vec<u128> = Vec::new();
                bucket.push(id);
                self.prefabs.push((handle, bucket));
                proof {
                    assert(self.prefabs_view() =~= pv.push(
                        (handle, Seq::<u128>::empty().push(id)),
                    ));
                }
            },
        }
    }

    /// Spawn a new instance of the prefab under `handle`: write it through
    /// a fresh remap table, mint an id, and track the instance under its
    /// handle. Fails — tracking nothing — exactly when the handle does not
    /// resolve or the write fails.
    pub fn spawn(&mut self, world: &mut World, assets: &PrefabAssets, handle: u64) -> (r: Result<
        u128,
        PrefabError,
    >)
        requires
            old(world).wf(),
            old(self).next_instance < u128::MAX,
            match assets_get(assets@, handle) {
                Some(p) => old(world).next_id + p.len() <= u64::MAX,
                None => true,
            },
        ensures
            final(world).wf(),
            final(world)@.registry == old(world)@.registry,
            match assets_get(assets@, handle) {
                None => {
                    &&& r matches Err(e) && e@ == (crate::ErrorModel::NonExistentPrefab {
                        handle,
                    })
                    &&& final(world)@ == old(world)@
                    &&& final(self).instances_view() == old(self).instances_view()
                    &&& final(self).prefabs_view() == old(self).prefabs_view()
                    &&& final(self).next_instance == old(self).next_instance
                },
                Some(pm) => {
                    let st0 = st_of(old(world)@, Seq::empty(), Seq::empty());
                    let (st, err) = write_spec(empty_patch(), pm, old(world)@.registry, st0);
                    &&& final(world)@.records == st.records
                    &&& final(world).next_id == st.next_id
                    &&& match err {
                        None => {
                            &&& r matches Ok(id) && id == old(self).next_instance
                            &&& final(self).instances_view() == old(self).instances_view().push(
                                (old(self).next_instance, st.remap),
                            )
                            &&& final(self).prefabs_view() == bucket_push(
                                old(self).prefabs_view(),
                                handle,
                                old(self).next_instance,
                            )
                            &&& final(self).next_instance == old(self).next_instance + 1
                        },
                        Some(es) => {
                            &&& r matches Err(e) && e@ == es
                            &&& final(self).instances_view() == old(self).instances_view()
                            &&& final(self).prefabs_view() == old(self).prefabs_view()
                            &&& final(self).next_instance == old(self).next_instance
                        },
                    }
                },
            },
    {
        let mut info = PrefabInstanceInfo::new();
        match info.spawn(world, assets, handle) {
            Err(e) => Err(e),
            Ok(()) => {
                let id = self.generate_id();
                self.index_instance(handle, id, info);
                Ok(id)
            },
        }
    }

    /// Destroy the instance with the given id, and with it every live
    /// record its remap table still maps; unknown ids do nothing.
    pub fn despawn(&mut self, world: &mut World, id: u128)
        requires
            old(world).wf(),
        ensures
            final(world).wf(),
            final(world).next_id == old(world).next_id,
            final(world)@.registry == old(world)@.registry,
            final(self).prefabs_view() == old(self).prefabs_view(),
            final(self).next_instance == old(self).next_instance,
            match inst_find(old(self).instances_view(), id) {
                Some(i) => {
                    &&& final(world)@.records == despawn_records(
                        old(world)@.records,
                        old(self).instances_view()[i].1,
                    )
                    &&& final(self).instances_view() == old(self).instances_view().remove(i)
                },
                None => {
                    &&& final(world)@ == old(world)@
                    &&& final(self).instances_view() == old(self).instances_view()
                },
            },
    {
        let ghost iv = self.instances_view();
        match self.find_instance(id) {
            None => {
            },
            Some(i) => {
                proof {
                    lemma_inst_find(iv, id);
                }
                let (_idv, mut info) = self.instances.remove(i);
                info.despawn(world);
                proof {
                    assert(self.instances_view() =~= iv.remove(i as int));
                }
            },
        }
    }
}

/// The state a hot-update pass threads along: the instance table, the live
/// records, the allocation counter, and the errors surfaced so far.
#[verifier::ext_equal]
pub ghost struct UpdateState {
    pub instances: Seq<(u128, Seq<(u32, u64)>)>,
    pub records: Seq<crate::world::RecordModel>,
    pub next_id: u64,
    pub errs: Seq<crate::ErrorModel>,
}

/// One instance hot-updated: its prefab re-written through its retained
/// remap table with the empty patch. An id with no instance does nothing;
/// an unresolvable prefab or a failed write surfaces its error and that
/// one request is dropped, the pass going on.
pub open spec fn update_step(
    s: UpdateState,
    reg: Seq<crate::registry::RegistrationModel>,
    asset: Option<Seq<PrefabEntityModel>>,
    handle: u64,
    id: u128,
) -> UpdateState {
    match inst_find(s.instances, id) {
        None => s,
        Some(i) => match asset {
            None => UpdateState {
                errs: s.errs.push(crate::ErrorModel::NonExistentPrefab { handle }),
                ..s
            },
            Some(pm) => {
                let (st, err) = write_spec(
                    empty_patch(),
                    pm,
                    reg,
                    WriteState {
                        records: s.records,
                        next_id: s.next_id,
                        remap: s.instances[i].1,
                        touched: Seq::empty(),
                    },
                );
                UpdateState {
                    instances: s.instances.update(i, (id, st.remap)),
                    records: st.records,
                    next_id: st.next_id,
                    errs: match err {
                        None => s.errs,
                        Some(e) => s.errs.push(e),
                    },
                }
            },
        },
    }
}

/// A hot-update pass over a list of instance ids, in order.
pub open spec fn update_fold(
    s: UpdateState,
    reg: Seq<crate::registry::RegistrationModel>,
    asset: Option<Seq<PrefabEntityModel>>,
    handle: u64,
    ids: Seq<u128>,
) -> UpdateState
    decreases ids.len(),
{
    if ids.len() == 0 {
        s
    } else {
        update_fold(update_step(s, reg, asset, handle, ids[0]), reg, asset, handle, ids.drop_first())
    }
}

impl Spawned {
    /// The ids in the bucket for the given handle, in spawn order.
    fn bucket_ids(&self, handle: u64) -> (r: Vec<u128>)
        ensures
            r@ == match bucket_find(self.prefabs_view(), handle) {
                Some(i) => self.prefabs_view()[i].1,
                None => Seq::<u128>::empty(),
            },
    {
        let ghost pv = self.prefabs_view();
        match self.find_bucket(handle) {
            None => Vec::new(),
            Some(i) => {
                proof {
                    lemma_bucket_find(pv, handle);
                }
                let bucket = &self.prefabs[i].1;
                let mut r: Vec<u128> = Vec::new();
                let mut j: usize = 0;
                while j < bucket.len()
                    invariant
                        j <= bucket.len(),
                        r@ == bucket@.take(j as int),
                    decreases bucket.len() - j,
                {
                    r.push(bucket[j]);
                    proof {
                        assert(r@ =~= bucket@.take(j + 1));
                    }
                    j += 1;
                }
                proof {
                    assert(bucket@.take(bucket@.len() as int) =~= bucket@);
                    assert(pv[i as int].1 == bucket@);
                }
                r
            },
        }
    }

    /// Hot-update every tracked instance of the prefab under `handle`:
    /// re-run the write through each instance's retained remap table, so
    /// existing records are reconciled in place. Errors are surfaced in
    /// the returned list; the pass is not stopped by them.
    pub fn update(&mut self, world: &mut World, assets: &PrefabAssets, handle: u64) -> (r: Vec<
        PrefabError,
    >)
        requires
            old(world).wf(),
            match assets_get(assets@, handle) {
                Some(p) => old(world).next_id + bucket_len(old(self).prefabs_view(), handle) * (
                p.len() as int) <= u64::MAX,
                None => true,
            },
        ensures
            final(world).wf(),
            final(world)@.registry == old(world)@.registry,
            final(self).prefabs_view() == old(self).prefabs_view(),
            final(self).next_instance == old(self).next_instance,
            ({
                let s1 = update_fold(
                    UpdateState {
                        instances: old(self).instances_view(),
                        records: old(world)@.records,
                        next_id: old(world).next_id,
                        errs: Seq::empty(),
                    },
                    old(world)@.registry,
                    assets_get(assets@, handle),
                    handle,
                    bucket_of(old(self).prefabs_view(), handle),
                );
                &&& final(self).instances_view() == s1.instances
                &&& final(world)@.records == s1.records
                &&& final(world).next_id == s1.next_id
                &&& r@.map_values(|e: PrefabError| e@) == s1.errs
            }),
    {
        let ghost reg = old(world)@.registry;
        let ghost am = assets_get(assets@, handle);
        let ghost ids0 = bucket_of(old(self).prefabs_view(), handle);
        let ghost s0 = UpdateState {
            instances: old(self).instances_view(),
            records: old(world)@.records,
            next_id: old(world).next_id,
            errs: Seq::empty(),
        };
        let ids = self.bucket_ids(handle);
        let mut errs: Vec<PrefabError> = Vec::new();
        let mut j: usize = 0;
        proof {
            assert(ids0.skip(0) =~= ids0);
            assert(errs@.map_values(|e: PrefabError| e@) =~= Seq::<crate::ErrorModel>::empty());
        }
        while j < ids.len()
            invariant
                j <= ids.len(),
                ids@ == ids0,
                reg == old(world)@.registry,
                am == assets_get(assets@, handle),
                s0 == (UpdateState {
                    instances: old(self).instances_view(),
                    records: old(world)@.records,
                    next_id: old(world).next_id,
                    errs: Seq::empty(),
                }),
                world.wf(),
                world@.registry == reg,
                self.prefabs_view() == old(self).prefabs_view(),
                self.next_instance == old(self).next_instance,
                match am {
                    Some(p) => world.next_id + (ids0.len() - j) * (p.len() as int) <= u64::MAX,
                    None => true,
                },
                update_fold(s0, reg, am, handle, ids0) == update_fold(
                    UpdateState {
                        instances: self.instances_view(),
                        records: world@.records,
                        next_id: world.next_id,
                        errs: errs@.map_values(|e: PrefabError| e@),
                    },
                    reg,
                    am,
                    handle,
                    ids0.skip(j as int),
                ),
            decreases ids.len() - j,
        {
            let ghost scur = UpdateState {
                instances: self.instances_view(),
                records: world@.records,
                next_id: world.next_id,
                errs: errs@.map_values(|e: PrefabError| e@),
            };
            proof {
                assert(ids0.skip(j as int)[0] == ids0[j as int]);
                assert(ids0.skip(j as int).drop_first() =~= ids0.skip(j + 1));
            }
            let id = ids[j];
            let ghost iv = self.instances_view();
            match self.find_instance(id) {
                None => {
                    proof {
                        assert(update_step(scur, reg, am, handle, id) == scur);
                        if am is Some {
                            let p = am.unwrap();
                            assert((ids0.len() - j) * (p.len() as int) >= (ids0.len() - j - 1) * (
                            p.len() as int)) by (nonlinear_arith)
                                requires
                                    p.len() >= 0,
                                    ids0.len() - j >= 1,
                            ;
                        }
                    }
                },
                Some(i) => {
                    proof {
                        lemma_inst_find(iv, id);
                        if am is Some {
                            let p = am.unwrap();
                            assert((ids0.len() - j) * (p.len() as int) >= (ids0.len() - j - 1) * (
                            p.len() as int) + p.len() as int) by (nonlinear_arith)
                                requires
                                    p.len() >= 0,
                                    ids0.len() - j >= 1,
                            ;
                        }
                    }
                    let ghost world_before = world@;
                    let (idv, mut info) = self.instances.remove(i);
                    let rr = info.spawn(world, assets, handle);
                    self.instances.insert(i, (idv, info));
                    proof {
                        assert(self.instances_view() =~= iv.update(i as int, (id, info@)));
                        if am is Some {
                            let p = am.unwrap();
                            crate::writer::lemma_write_next(
                                empty_patch(),
                                p,
                                reg,
                                st_of(world_before, iv[i as int].1, Seq::empty()),
                            );
                        }
                    }
                    match rr {
                        Ok(()) => {
                            proof {
                                let snext = update_step(scur, reg, am, handle, id);
                                assert(self.instances_view() =~= snext.instances);
                                assert(errs@.map_values(|e: PrefabError| e@) =~= snext.errs);
                            }
                        },
                        Err(e) => {
                            let ghost eb = errs@.map_values(|x: PrefabError| x@);
                            errs.push(e);
                            proof {
                                let snext = update_step(scur, reg, am, handle, id);
                                assert(errs@.map_values(|x: PrefabError| x@) =~= eb.push(e@));
                                assert(self.instances_view() =~= snext.instances);
                                assert(errs@.map_values(|x: PrefabError| x@) =~= snext.errs);
                            }
                        },
                    }
                },
            }
            j += 1;
        }
        proof {
            assert(ids0.skip(ids0.len() as int) =~= Seq::<u128>::empty());
        }
        errs
    }
}

/// The bucket an update pass walks: the instances tracked for a handle.
pub open spec fn bucket_of(prefabs: Seq<(u64, Seq<u128>)>, handle: u64) -> Seq<u128> {
    match bucket_find(prefabs, handle) {
        Some(i) => prefabs[i].1,
        None => Seq::empty(),
    }
}

/// How many instances a handle's bucket tracks.
pub open spec fn bucket_len(prefabs: Seq<(u64, Seq<u128>)>, handle: u64) -> int {
    bucket_of(prefabs, handle).len() as int
}

/// The handles a tick queues for hot-update: one per `Modified` event not
/// yet seen whose handle has tracked instances; `Created` and `Removed`
/// are not acted on.
pub open spec fn modified_handles(
    events: Seq<AssetEvent>,
    from: int,
    prefabs: Seq<(u64, Seq<u128>)>,
) -> Seq<u64>
    decreases events.len() - from,
{
    if from < 0 || from >= events.len() {
        Seq::empty()
    } else {
        let rest = modified_handles(events, from + 1, prefabs);
        match events[from] {
            AssetEvent::Modified { handle } => if bucket_find(prefabs, handle) is Some {
                Seq::empty().push(handle) + rest
            } else {
                rest
            },
            _ => rest,
        }
    }
}

/// The despawn queue processed: each id's instance removed and its records
/// destroyed; unknown ids do nothing.
pub open spec fn despawn_fold(
    instances: Seq<(u128, Seq<(u32, u64)>)>,
    records: Seq<crate::world::RecordModel>,
    ids: Seq<u128>,
) -> (Seq<(u128, Seq<(u32, u64)>)>, Seq<crate::world::RecordModel>)
    decreases ids.len(),
{
    if ids.len() == 0 {
        (instances, records)
    } else {
        let (i2, r2) = match inst_find(instances, ids[0]) {
            Some(i) => (instances.remove(i), despawn_records(records, instances[i].1)),
            None => (instances, records),
        };
        despawn_fold(i2, r2, ids.drop_first())
    }
}

/// The state the spawn queue threads: the registry's tables, the live
/// records, the requests retained for a later tick, and surfaced errors.
#[verifier::ext_equal]
pub ghost struct SpawnQueueState {
    pub instances: Seq<(u128, Seq<(u32, u64)>)>,
    pub prefabs: Seq<(u64, Seq<u128>)>,
    pub records: Seq<crate::world::RecordModel>,
    pub next_id: u64,
    pub retained: Seq<(u64, u128)>,
    pub errs: Seq<crate::ErrorModel>,
}

/// The spawn queue processed: a request whose handle does not resolve is
/// retained for a later tick — the one retryable condition; a successful
/// write becomes a tracked instance; any other write error is surfaced and
/// the request dropped.
pub open spec fn spawn_fold(
    s: SpawnQueueState,
    reg: Seq<crate::registry::RegistrationModel>,
    assets: Seq<(u64, Seq<PrefabEntityModel>)>,
    items: Seq<(u64, u128)>,
) -> SpawnQueueState
    decreases items.len(),
{
    if items.len() == 0 {
        s
    } else {
        let (handle, id) = items[0];
        let s2 = match assets_get(assets, handle) {
            None => SpawnQueueState { retained: s.retained.push((handle, id)), ..s },
            Some(pm) => {
                let (st, err) = write_spec(
                    empty_patch(),
                    pm,
                    reg,
                    WriteState {
                        records: s.records,
                        next_id: s.next_id,
                        remap: Seq::empty(),
                        touched: Seq::empty(),
                    },
                );
                match err {
                    None => SpawnQueueState {
                        instances: s.instances.push((id, st.remap)),
                        prefabs: bucket_push(s.prefabs, handle, id),
                        records: st.records,
                        next_id: st.next_id,
                        ..s
                    },
                    Some(e) => SpawnQueueState {
                        records: st.records,
                        next_id: st.next_id,
                        errs: s.errs.push(e),
                        ..s
                    },
                }
            },
        };
        spawn_fold(s2, reg, assets, items.drop_first())
    }
}

/// The update queue processed, handle by handle, each through
/// [`update_fold`]; errors concatenate in order.
pub open spec fn updates_fold(
    u: UpdateState,
    reg: Seq<crate::registry::RegistrationModel>,
    assets: Seq<(u64, Seq<PrefabEntityModel>)>,
    prefabs: Seq<(u64, Seq<u128>)>,
    handles: Seq<u64>,
) -> UpdateState
    decreases handles.len(),
{
    if handles.len() == 0 {
        u
    } else {
        let h = handles[0];
        let r = update_fold(
            UpdateState { errs: Seq::empty(), ..u },
            reg,
            assets_get(assets, h),
            h,
            bucket_of(prefabs, h),
        );
        updates_fold(
            UpdateState { errs: u.errs + r.errs, ..r },
            reg,
            assets,
            prefabs,
            handles.drop_first(),
        )
    }
}

/// One instance's records attached under a parent: every record of the
/// instance that exists and has no parent relationship yet — the
/// snapshot's root entities — is attached to the requested parent.
pub open spec fn attach_fold(
    records: Seq<crate::world::RecordModel>,
    remap: Seq<(u32, u64)>,
    parent: u64,
) -> Seq<crate::world::RecordModel>
    decreases remap.len(),
{
    if remap.len() == 0 {
        records
    } else {
        let r2 = match crate::world::find_record(records, remap[0].1) {
            Some(i) => if records[i].parent is None {
                records.update(
                    i,
                    crate::world::RecordModel { parent: Some(parent), ..records[i] },
                )
            } else {
                records
            },
            None => records,
        };
        attach_fold(r2, remap.drop_first(), parent)
    }
}

/// The pending-parent queue processed: an attachment whose instance is now
/// spawned is performed and removed, whatever each record's outcome; one
/// whose instance is not yet spawned is retained.
pub open spec fn parent_fold(
    records: Seq<crate::world::RecordModel>,
    instances: Seq<(u128, Seq<(u32, u64)>)>,
    items: Seq<(u128, u64)>,
) -> (Seq<crate::world::RecordModel>, Seq<(u128, u64)>)
    decreases items.len(),
{
    if items.len() == 0 {
        (records, Seq::empty())
    } else {
        let (id, parent) = items[0];
        match inst_find(instances, id) {
            Some(i) => {
                let r2 = attach_fold(records, instances[i].1, parent);
                parent_fold(r2, instances, items.drop_first())
            },
            None => {
                let (r2, kept) = parent_fold(records, instances, items.drop_first());
                (r2, Seq::empty().push((id, parent)) + kept)
            },
        }
    }
}

/// What one tick's spawn queue may allocate: the summed entity count of
/// every request whose prefab resolves.
pub open spec fn spawn_budget(
    assets: Seq<(u64, Seq<PrefabEntityModel>)>,
    items: Seq<(u64, u128)>,
) -> int
    decreases items.len(),
{
    if items.len() == 0 {
        0
    } else {
        (match assets_get(assets, items[0].0) {
            Some(pm) => pm.len() as int,
            None => 0,
        }) + spawn_budget(assets, items.drop_first())
    }
}

/// What one tick's update queue may allocate: per handle, one prefab's
/// entity count for every tracked instance.
pub open spec fn updates_budget(
    assets: Seq<(u64, Seq<PrefabEntityModel>)>,
    prefabs: Seq<(u64, Seq<u128>)>,
    handles: Seq<u64>,
) -> int
    decreases handles.len(),
{
    if handles.len() == 0 {
        0
    } else {
        (match assets_get(assets, handles[0]) {
            Some(pm) => bucket_len(prefabs, handles[0]) * (pm.len() as int),
            None => 0,
        }) + updates_budget(assets, prefabs, handles.drop_first())
    }
}

/// Whether the asset store resolves the handle.
pub open spec fn am_has(assets: Seq<(u64, Seq<PrefabEntityModel>)>, handle: u64) -> bool {
    assets_get(assets, handle) is Some
}

/// A spawn budget is never negative.
pub proof fn lemma_spawn_budget_nonneg(
    assets: Seq<(u64, Seq<PrefabEntityModel>)>,
    items: Seq<(u64, u128)>,
)
    ensures
        spawn_budget(assets, items) >= 0,
    decreases items.len(),
{
    if items.len() > 0 {
        lemma_spawn_budget_nonneg(assets, items.drop_first());
    }
}

/// A bucket length is never negative.
pub proof fn lemma_bucket_len_nonneg(prefabs: Seq<(u64, Seq<u128>)>, handle: u64)
    ensures
        bucket_len(prefabs, handle) >= 0,
{
}

/// An update budget is never negative.
pub proof fn lemma_updates_budget_nonneg(
    assets: Seq<(u64, Seq<PrefabEntityModel>)>,
    prefabs: Seq<(u64, Seq<u128>)>,
    handles: Seq<u64>,
)
    ensures
        updates_budget(assets, prefabs, handles) >= 0,
    decreases handles.len(),
{
    if handles.len() > 0 {
        lemma_updates_budget_nonneg(assets, prefabs, handles.drop_first());
        match assets_get(assets, handles[0]) {
            Some(pm) => {
                lemma_bucket_len_nonneg(prefabs, handles[0]);
                assert(bucket_len(prefabs, handles[0]) * (pm.len() as int) >= 0)
                    by (nonlinear_arith)
                    requires
                        bucket_len(prefabs, handles[0]) >= 0,
                        pm.len() >= 0,
                ;
            },
            None => {},
        }
    }
}

/// A hot-update pass allocates at most one record per snapshot entity per
/// instance, and leaves no counter behind.
pub proof fn lemma_update_fold_next(
    s: UpdateState,
    reg: Seq<crate::registry::RegistrationModel>,
    asset: Option<Seq<PrefabEntityModel>>,
    handle: u64,
    ids: Seq<u128>,
)
    requires
        s.next_id + ids.len() * (match asset {
            Some(pm) => pm.len() as int,
            None => 0,
        }) <= u64::MAX,
    ensures
        ({
            let r = update_fold(s, reg, asset, handle, ids);
            s.next_id <= r.next_id <= s.next_id + ids.len() * (match asset {
                Some(pm) => pm.len() as int,
                None => 0,
            })
        }),
    decreases ids.len(),
{
    if ids.len() > 0 {
        let plen: int = match asset {
            Some(pm) => pm.len() as int,
            None => 0,
        };
        assert(ids.len() * plen == plen + (ids.len() - 1) * plen) by (nonlinear_arith);
        assert((ids.len() - 1) * plen >= 0) by (nonlinear_arith)
            requires
                plen >= 0,
                ids.len() >= 1,
        ;
        let s2 = update_step(s, reg, asset, handle, ids[0]);
        assert(s.next_id <= s2.next_id <= s.next_id + plen) by {
            match inst_find(s.instances, ids[0]) {
                None => {},
                Some(i) => {
                    match asset {
                        None => {},
                        Some(pm) => {
                            crate::writer::lemma_write_next(
                                empty_patch(),
                                pm,
                                reg,
                                WriteState {
                                    records: s.records,
                                    next_id: s.next_id,
                                    remap: s.instances[i].1,
                                    touched: Seq::empty(),
                                },
                            );
                        },
                    }
                },
            }
        }
        lemma_update_fold_next(s2, reg, asset, handle, ids.drop_first());
    }
}

/// The spawner: the tracked instances plus the queues one maintenance
/// pass per tick drains — pending spawns, pending despawns, pending
/// parent attachments, queued hot-updates, and the position reached in
/// the asset-event stream.
pub struct PrefabSpawner {
    pub spawned: Spawned,
    pub to_spawn: Vec<(u64, u128)>,
    pub to_despawn: Vec<u128>,
    pub with_parent: Vec<(u128, u64)>,
    pub updates: Vec<u64>,
    pub events_seen: usize,
}

impl PrefabSpawner {
    /// A spawner with nothing tracked and nothing queued.
    pub fn new() -> (r: PrefabSpawner)
        ensures
            r.spawned.prefabs_view() == Seq::<(u64, Seq<u128>)>::empty(),
            r.spawned.instances_view() == Seq::<(u128, Seq<(u32, u64)>)>::empty(),
            r.spawned.next_instance == 0,
            r.to_spawn@ == Seq::<(u64, u128)>::empty(),
            r.to_despawn@ == Seq::<u128>::empty(),
            r.with_parent@ == Seq::<(u128, u64)>::empty(),
            r.updates@ == Seq::<u64>::empty(),
            r.events_seen == 0,
    {
        PrefabSpawner {
            spawned: Spawned::new(),
            to_spawn: Vec::new(),
            to_despawn: Vec::new(),
            with_parent: Vec::new(),
            updates: Vec::new(),
            events_seen: 0,
        }
    }

    /// Request an instance of the prefab under `handle`, optionally to be
    /// attached under a parent record once spawned. Returns immediately;
    /// the spawn happens in a later maintenance pass.
    pub fn spawn(&mut self, handle: u64, parent: Option<u64>) -> (r: PrefabInstance)
        requires
            old(self).spawned.next_instance < u128::MAX,
        ensures
            r.0 == old(self).spawned.next_instance,
            final(self).spawned.next_instance == old(self).spawned.next_instance + 1,
            final(self).spawned.instances_view() == old(self).spawned.instances_view(),
            final(self).spawned.prefabs_view() == old(self).spawned.prefabs_view(),
            final(self).to_spawn@ == old(self).to_spawn@.push((handle, r.0)),
            final(self).with_parent@ == match parent {
                Some(p) => old(self).with_parent@.push((r.0, p)),
                None => old(self).with_parent@,
            },
            final(self).to_despawn@ == old(self).to_despawn@,
            final(self).updates@ == old(self).updates@,
            final(self).events_seen == old(self).events_seen,
    {
        let id = self.spawned.generate_id();
        self.to_spawn.push((handle, id));
        match parent {
            Some(p) => {
                self.with_parent.push((id, p));
            },
            None => {
            },
        }
        PrefabInstance(id)
    }

    /// Request that an instance be destroyed; it happens in the next
    /// maintenance pass.
    pub fn despawn(&mut self, id: &PrefabInstance)
        ensures
            final(self).to_despawn@ == old(self).to_despawn@.push(id.0),
            final(self).spawned.instances_view() == old(self).spawned.instances_view(),
            final(self).spawned.prefabs_view() == old(self).spawned.prefabs_view(),
            final(self).spawned.next_instance == old(self).spawned.next_instance,
            final(self).to_spawn@ == old(self).to_spawn@,
            final(self).with_parent@ == old(self).with_parent@,
            final(self).updates@ == old(self).updates@,
            final(self).events_seen == old(self).events_seen,
    {
        self.to_despawn.push(id.0);
    }

    /// Whether an instance requested earlier has been spawned and is
    /// ready to use.
    pub fn is_ready(&self, id: &PrefabInstance) -> (r: bool)
        ensures
            r == (inst_find(self.spawned.instances_view(), id.0) is Some),
    {
        self.spawned.find_instance(id.0).is_some()
    }

    /// The tracked state of an instance, e.g. to enumerate its live
    /// records; `None` for an id that is not (or no longer) spawned.
    pub fn info(&self, id: &PrefabInstance) -> (r: Option<&PrefabInstanceInfo>)
        ensures
            match r {
                Some(info) => inst_find(self.spawned.instances_view(), id.0) matches Some(i)
                    && self.spawned.instances_view()[i].1 == info@,
                None => inst_find(self.spawned.instances_view(), id.0) is None,
            },
    {
        let ghost iv = self.spawned.instances_view();
        match self.spawned.find_instance(id.0) {
            None => None,
            Some(i) => {
                proof {
                    lemma_inst_find(iv, id.0);
                }
                Some(&self.spawned.instances[i].1)
            },
        }
    }

    /// Spawn an instance immediately, blocking, for callers that already
    /// hold exclusive access to the live collection.
    pub fn spawn_sync(&mut self, world: &mut World, assets: &PrefabAssets, handle: u64) -> (r:
        Result<PrefabInstance, PrefabError>)
        requires
            old(world).wf(),
            old(self).spawned.next_instance < u128::MAX,
            match assets_get(assets@, handle) {
                Some(p) => old(world).next_id + p.len() <= u64::MAX,
                None => true,
            },
        ensures
            final(world).wf(),
            final(world)@.registry == old(world)@.registry,
            final(self).to_spawn@ == old(self).to_spawn@,
            final(self).to_despawn@ == old(self).to_despawn@,
            final(self).with_parent@ == old(self).with_parent@,
            final(self).updates@ == old(self).updates@,
            final(self).events_seen == old(self).events_seen,
            match assets_get(assets@, handle) {
                None => {
                    &&& r matches Err(e) && e@ == (crate::ErrorModel::NonExistentPrefab {
                        handle,
                    })
                    &&& final(world)@ == old(world)@
                    &&& final(self).spawned.instances_view()
                        == old(self).spawned.instances_view()
                    &&& final(self).spawned.prefabs_view() == old(self).spawned.prefabs_view()
                },
                Some(pm) => {
                    let st0 = st_of(old(world)@, Seq::empty(), Seq::empty());
                    let (st, err) = write_spec(empty_patch(), pm, old(world)@.registry, st0);
                    &&& final(world)@.records == st.records
                    &&& final(world).next_id == st.next_id
                    &&& match err {
                        None => {
                            &&& r matches Ok(inst) && inst.0
                                == old(self).spawned.next_instance
                            &&& final(self).spawned.instances_view() == old(
                                self,
                            ).spawned.instances_view().push(
                                (old(self).spawned.next_instance, st.remap),
                            )
                            &&& final(self).spawned.prefabs_view() == bucket_push(
                                old(self).spawned.prefabs_view(),
                                handle,
                                old(self).spawned.next_instance,
                            )
                        },
                        Some(es) => {
                            &&& r matches Err(e) && e@ == es
                            &&& final(self).spawned.instances_view()
                                == old(self).spawned.instances_view()
                            &&& final(self).spawned.prefabs_view()
                                == old(self).spawned.prefabs_view()
                        },
                    }
                },
            },
    {
        match self.spawned.spawn(world, assets, handle) {
            Ok(id) => Ok(PrefabInstance(id)),
            Err(e) => Err(e),
        }
    }

    /// Hot-update every instance of a prefab immediately, blocking.
    pub fn update_sync(&mut self, world: &mut World, assets: &PrefabAssets, handle: u64) -> (r:
        Vec<PrefabError>)
        requires
            old(world).wf(),
            match assets_get(assets@, handle) {
                Some(p) => old(world).next_id + bucket_len(
                    old(self).spawned.prefabs_view(),
                    handle,
                ) * (p.len() as int) <= u64::MAX,
                None => true,
            },
        ensures
            final(world).wf(),
            final(world)@.registry == old(world)@.registry,
            final(self).spawned.prefabs_view() == old(self).spawned.prefabs_view(),
            ({
                let s1 = update_fold(
                    UpdateState {
                        instances: old(self).spawned.instances_view(),
                        records: old(world)@.records,
                        next_id: old(world).next_id,
                        errs: Seq::empty(),
                    },
                    old(world)@.registry,
                    assets_get(assets@, handle),
                    handle,
                    bucket_of(old(self).spawned.prefabs_view(), handle),
                );
                &&& final(self).spawned.instances_view() == s1.instances
                &&& final(world)@.records == s1.records
                &&& final(world).next_id == s1.next_id
                &&& r@.map_values(|e: PrefabError| e@) == s1.errs
            }),
    {
        self.spawned.update(world, assets, handle)
    }

    /// One maintenance pass, in strict order — later steps observe the
    /// results of earlier ones. First the unseen asset events are
    /// drained, queueing a hot-update for each modified prefab with
    /// tracked instances; then pending despawns are performed; then
    /// pending spawns are attempted, retaining only requests whose prefab
    /// does not yet resolve; then queued hot-updates re-run each tracked
    /// instance's write in place; last, pending parent attachments are
    /// performed for instances that are now spawned. Every error other
    /// than an unresolvable pending spawn is surfaced in the returned
    /// list and its request dropped.
    pub fn maintain(
        &mut self,
        world: &mut World,
        assets: &PrefabAssets,
        events: &Vec<AssetEvent>,
    ) -> (r: Vec<PrefabError>)
        requires
            old(world).wf(),
            old(self).events_seen <= events@.len(),
            old(world).next_id + spawn_budget(assets@, old(self).to_spawn@) <= u64::MAX,
            ({
                let handles = old(self).updates@ + modified_handles(
                    events@,
                    old(self).events_seen as int,
                    old(self).spawned.prefabs_view(),
                );
                let s3 = spawn_fold(
                    SpawnQueueState {
                        instances: despawn_fold(
                            old(self).spawned.instances_view(),
                            old(world)@.records,
                            old(self).to_despawn@,
                        ).0,
                        prefabs: old(self).spawned.prefabs_view(),
                        records: despawn_fold(
                            old(self).spawned.instances_view(),
                            old(world)@.records,
                            old(self).to_despawn@,
                        ).1,
                        next_id: old(world).next_id,
                        retained: Seq::empty(),
                        errs: Seq::empty(),
                    },
                    old(world)@.registry,
                    assets@,
                    old(self).to_spawn@,
                );
                s3.next_id + updates_budget(assets@, s3.prefabs, handles) <= u64::MAX
            }),
        ensures
            final(world).wf(),
            final(world)@.registry == old(world)@.registry,
            final(self).to_despawn@ == Seq::<u128>::empty(),
            final(self).updates@ == Seq::<u64>::empty(),
            final(self).events_seen == events@.len(),
            final(self).spawned.next_instance == old(self).spawned.next_instance,
            ({
                let handles = old(self).updates@ + modified_handles(
                    events@,
                    old(self).events_seen as int,
                    old(self).spawned.prefabs_view(),
                );
                let (inst2, recs2) = despawn_fold(
                    old(self).spawned.instances_view(),
                    old(world)@.records,
                    old(self).to_despawn@,
                );
                let s3 = spawn_fold(
                    SpawnQueueState {
                        instances: inst2,
                        prefabs: old(self).spawned.prefabs_view(),
                        records: recs2,
                        next_id: old(world).next_id,
                        retained: Seq::empty(),
                        errs: Seq::empty(),
                    },
                    old(world)@.registry,
                    assets@,
                    old(self).to_spawn@,
                );
                let u4 = updates_fold(
                    UpdateState {
                        instances: s3.instances,
                        records: s3.records,
                        next_id: s3.next_id,
                        errs: s3.errs,
                    },
                    old(world)@.registry,
                    assets@,
                    s3.prefabs,
                    handles,
                );
                let (recs5, kept5) = parent_fold(
                    u4.records,
                    u4.instances,
                    old(self).with_parent@,
                );
                &&& final(self).spawned.instances_view() == u4.instances
                &&& final(self).spawned.prefabs_view() == s3.prefabs
                &&& final(self).to_spawn@ == s3.retained
                &&& final(self).with_parent@ == kept5
                &&& final(world)@.records == recs5
                &&& final(world).next_id == u4.next_id
                &&& r@.map_values(|e: PrefabError| e@) == u4.errs
            }),
    {
        let ghost reg = old(world)@.registry;
        let ghost am = assets@;
        let ghost pv0 = old(self).spawned.prefabs_view();
        let ghost handles_spec = old(self).updates@ + modified_handles(
            events@,
            old(self).events_seen as int,
            pv0,
        );
        // Drain change notifications, queueing modified prefabs that have
        // tracked instances.
        let mut ev: usize = self.events_seen;
        while ev < events.len()
            invariant
                old(self).events_seen <= ev <= events@.len(),
                pv0 == self.spawned.prefabs_view(),
                self.spawned.instances_view() == old(self).spawned.instances_view(),
                self.spawned.next_instance == old(self).spawned.next_instance,
                self.to_spawn@ == old(self).to_spawn@,
                self.to_despawn@ == old(self).to_despawn@,
                self.with_parent@ == old(self).with_parent@,
                world@ == old(world)@,
                handles_spec == self.updates@ + modified_handles(events@, ev as int, pv0),
            decreases events@.len() - ev,
        {
            proof {
                assert(modified_handles(events@, ev as int, pv0) == match events@[ev as int] {
                    AssetEvent::Modified { handle } => if bucket_find(pv0, handle) is Some {
                        Seq::empty().push(handle) + modified_handles(events@, ev + 1, pv0)
                    } else {
                        modified_handles(events@, ev + 1, pv0)
                    },
                    _ => modified_handles(events@, ev + 1, pv0),
                });
            }
            match events[ev] {
                AssetEvent::Modified { handle } => {
                    if self.spawned.find_bucket(handle).is_some() {
                        let ghost ub = self.updates@;
                        self.updates.push(handle);
                        proof {
                            assert(ub + (Seq::empty().push(handle) + modified_handles(
                                events@,
                                ev + 1,
                                pv0,
                            )) =~= self.updates@ + modified_handles(events@, ev + 1, pv0));
                        }
                    }
                },
                _ => {
                },
            }
            ev += 1;
        }
        self.events_seen = events.len();
        let ghost handles1 = self.updates@;
        proof {
            assert(modified_handles(events@, events@.len() as int, pv0)
                =~= Seq::<u64>::empty());
            assert(handles_spec =~= handles1);
        }
        // Process pending despawns: destroy those instances immediately.
        let ghost inst0 = self.spawned.instances_view();
        let ghost recs0 = old(world)@.records;
        let ghost dq = self.to_despawn@;
        let mut d: usize = 0;
        proof {
            assert(dq.skip(0) =~= dq);
        }
        while d < self.to_despawn.len()
            invariant
                d <= self.to_despawn@.len(),
                dq == self.to_despawn@,
                self.events_seen == events@.len(),
                world.wf(),
                world@.registry == reg,
                world.next_id == old(world).next_id,
                pv0 == self.spawned.prefabs_view(),
                self.spawned.next_instance == old(self).spawned.next_instance,
                self.to_spawn@ == old(self).to_spawn@,
                self.with_parent@ == old(self).with_parent@,
                self.updates@ == handles1,
                despawn_fold(inst0, recs0, dq) == despawn_fold(
                    self.spawned.instances_view(),
                    world@.records,
                    dq.skip(d as int),
                ),
            decreases self.to_despawn@.len() - d,
        {
            proof {
                assert(dq.skip(d as int)[0] == dq[d as int]);
                assert(dq.skip(d as int).drop_first() =~= dq.skip(d + 1));
            }
            let id = self.to_despawn[d];
            self.spawned.despawn(world, id);
            d += 1;
        }
        self.to_despawn = Vec::new();
        proof {
            assert(dq.skip(dq.len() as int) =~= Seq::<u128>::empty());
            assert(self.to_despawn@ =~= Seq::<u128>::empty());
        }
        let ghost s2 = SpawnQueueState {
            instances: self.spawned.instances_view(),
            prefabs: pv0,
            records: world@.records,
            next_id: world.next_id,
            retained: Seq::empty(),
            errs: Seq::empty(),
        };
        // Attempt pending spawns: an unresolvable prefab is retried next
        // tick, any other failure drops the request and surfaces the
        // error.
        let ghost sq = self.to_spawn@;
        let mut retained: Vec<(u64, u128)> = Vec::new();
        let mut errs: Vec<PrefabError> = Vec::new();
        let mut sjj: usize = 0;
        proof {
            assert(sq.skip(0) =~= sq);
            assert(retained@ =~= Seq::<(u64, u128)>::empty());
            assert(errs@.map_values(|e: PrefabError| e@) =~= Seq::<crate::ErrorModel>::empty());
        }
        while sjj < self.to_spawn.len()
            invariant
                sjj <= self.to_spawn@.len(),
                sq == self.to_spawn@,
                self.events_seen == events@.len(),
                am == assets@,
                world.wf(),
                world@.registry == reg,
                pv0 == old(self).spawned.prefabs_view(),
                self.spawned.next_instance == old(self).spawned.next_instance,
                self.with_parent@ == old(self).with_parent@,
                self.updates@ == handles1,
                self.to_despawn@ == Seq::<u128>::empty(),
                world.next_id + spawn_budget(am, sq.skip(sjj as int)) <= u64::MAX,
                spawn_fold(s2, reg, am, sq) == spawn_fold(
                    SpawnQueueState {
                        instances: self.spawned.instances_view(),
                        prefabs: self.spawned.prefabs_view(),
                        records: world@.records,
                        next_id: world.next_id,
                        retained: retained@,
                        errs: errs@.map_values(|e: PrefabError| e@),
                    },
                    reg,
                    am,
                    sq.skip(sjj as int),
                ),
            decreases self.to_spawn@.len() - sjj,
        {
            let ghost scur = SpawnQueueState {
                instances: self.spawned.instances_view(),
                prefabs: self.spawned.prefabs_view(),
                records: world@.records,
                next_id: world.next_id,
                retained: retained@,
                errs: errs@.map_values(|e: PrefabError| e@),
            };
            proof {
                assert(sq.skip(sjj as int)[0] == sq[sjj as int]);
                assert(sq.skip(sjj as int).drop_first() =~= sq.skip(sjj + 1));
                lemma_spawn_budget_nonneg(am, sq.skip(sjj + 1));
            }
            let (handle, id) = self.to_spawn[sjj];
            match assets.get(handle) {
                None => {
                    let ghost rb = retained@;
                    retained.push((handle, id));
                    proof {
                        assert(retained@ =~= rb.push((handle, id)));
                        let snext = SpawnQueueState { retained: retained@, ..scur };
                        assert(spawn_fold(scur, reg, am, sq.skip(sjj as int)) == spawn_fold(
                            snext,
                            reg,
                            am,
                            sq.skip(sjj + 1),
                        ));
                        assert(snext =~= (SpawnQueueState {
                            instances: self.spawned.instances_view(),
                            prefabs: self.spawned.prefabs_view(),
                            records: world@.records,
                            next_id: world.next_id,
                            retained: retained@,
                            errs: errs@.map_values(|e: PrefabError| e@),
                        }));
                    }
                },
                Some(_) => {
                    let mut info = PrefabInstanceInfo::new();
                    let ghost world_before = world@;
                    let rr = info.spawn(world, assets, handle);
                    proof {
                        let pm = assets_get(am, handle).unwrap();
                        crate::writer::lemma_write_next(
                            empty_patch(),
                            pm,
                            reg,
                            st_of(world_before, Seq::empty(), Seq::empty()),
                        );
                        assert(st_of(world_before, Seq::empty(), Seq::empty()) =~= (WriteState {
                            records: scur.records,
                            next_id: scur.next_id,
                            remap: Seq::empty(),
                            touched: Seq::empty(),
                        }));
                    }
                    let ghost stx = write_spec(
                        empty_patch(),
                        assets_get(am, handle).unwrap(),
                        reg,
                        WriteState {
                            records: scur.records,
                            next_id: scur.next_id,
                            remap: Seq::empty(),
                            touched: Seq::empty(),
                        },
                    ).0;
                    match rr {
                        Ok(()) => {
                            self.spawned.index_instance(handle, id, info);
                            proof {
                                let snext = SpawnQueueState {
                                    instances: scur.instances.push((id, stx.remap)),
                                    prefabs: bucket_push(scur.prefabs, handle, id),
                                    records: stx.records,
                                    next_id: stx.next_id,
                                    ..scur
                                };
                                assert(spawn_fold(scur, reg, am, sq.skip(sjj as int))
                                    == spawn_fold(snext, reg, am, sq.skip(sjj + 1)));
                                assert(snext =~= (SpawnQueueState {
                                    instances: self.spawned.instances_view(),
                                    prefabs: self.spawned.prefabs_view(),
                                    records: world@.records,
                                    next_id: world.next_id,
                                    retained: retained@,
                                    errs: errs@.map_values(|e: PrefabError| e@),
                                }));
                            }
                        },
                        Err(e) => {
                            let ghost eb = errs@.map_values(|x: PrefabError| x@);
                            errs.push(e);
                            proof {
                                assert(errs@.map_values(|x: PrefabError| x@) =~= eb.push(e@));
                                let snext = SpawnQueueState {
                                    records: stx.records,
                                    next_id: stx.next_id,
                                    errs: eb.push(e@),
                                    ..scur
                                };
                                assert(spawn_fold(scur, reg, am, sq.skip(sjj as int))
                                    == spawn_fold(snext, reg, am, sq.skip(sjj + 1)));
                                assert(snext =~= (SpawnQueueState {
                                    instances: self.spawned.instances_view(),
                                    prefabs: self.spawned.prefabs_view(),
                                    records: world@.records,
                                    next_id: world.next_id,
                                    retained: retained@,
                                    errs: errs@.map_values(|e: PrefabError| e@),
                                }));
                            }
                        },
                    }
                },
            }
            sjj += 1;
        }
        self.to_spawn = retained;
        proof {
            assert(sq.skip(sq.len() as int) =~= Seq::<(u64, u128)>::empty());
        }
        let ghost s3 = spawn_fold(s2, reg, am, sq);
        // Re-run queued hot-updates against each tracked instance's
        // existing records.
        let ghost u3 = UpdateState {
            instances: self.spawned.instances_view(),
            records: world@.records,
            next_id: world.next_id,
            errs: errs@.map_values(|e: PrefabError| e@),
        };
        let ghost pv3 = self.spawned.prefabs_view();
        let mut t: usize = 0;
        proof {
            assert(handles1.skip(0) =~= handles1);
        }
        while t < self.updates.len()
            invariant
                t <= self.updates@.len(),
                handles1 == self.updates@,
                self.events_seen == events@.len(),
                am == assets@,
                world.wf(),
                world@.registry == reg,
                pv3 == self.spawned.prefabs_view(),
                self.spawned.next_instance == old(self).spawned.next_instance,
                self.with_parent@ == old(self).with_parent@,
                self.to_despawn@ == Seq::<u128>::empty(),
                self.to_spawn@ == s3.retained,
                world.next_id + updates_budget(am, pv3, handles1.skip(t as int)) <= u64::MAX,
                updates_fold(u3, reg, am, pv3, handles1) == updates_fold(
                    UpdateState {
                        instances: self.spawned.instances_view(),
                        records: world@.records,
                        next_id: world.next_id,
                        errs: errs@.map_values(|e: PrefabError| e@),
                    },
                    reg,
                    am,
                    pv3,
                    handles1.skip(t as int),
                ),
            decreases self.updates@.len() - t,
        {
            let ghost ucur = UpdateState {
                instances: self.spawned.instances_view(),
                records: world@.records,
                next_id: world.next_id,
                errs: errs@.map_values(|e: PrefabError| e@),
            };
            proof {
                assert(handles1.skip(t as int)[0] == handles1[t as int]);
                assert(handles1.skip(t as int).drop_first() =~= handles1.skip(t + 1));
                lemma_updates_budget_nonneg(am, pv3, handles1.skip(t + 1));
            }
            let h = self.updates[t];
            let ghost bids = bucket_of(pv3, h);
            proof {
                if am_has(am, h) {
                    let pm = assets_get(am, h).unwrap();
                    lemma_bucket_len_nonneg(pv3, h);
                    assert(bucket_len(pv3, h) * (pm.len() as int) >= 0) by (nonlinear_arith)
                        requires
                            bucket_len(pv3, h) >= 0,
                            pm.len() >= 0,
                    ;
                }
            }
            let mut es = self.spawned.update(world, assets, h);
            proof {
                if !am_has(am, h) {
                    assert(bids.len() * 0 == 0) by (nonlinear_arith);
                }
                lemma_update_fold_next(
                    UpdateState { errs: Seq::empty(), ..ucur },
                    reg,
                    assets_get(am, h),
                    h,
                    bids,
                );
            }
            let ghost eb = errs@.map_values(|x: PrefabError| x@);
            let ghost esb = es@.map_values(|x: PrefabError| x@);
            errs.append(&mut es);
            proof {
                assert(errs@.map_values(|x: PrefabError| x@) =~= eb + esb);
                let r1 = update_fold(
                    UpdateState { errs: Seq::empty(), ..ucur },
                    reg,
                    assets_get(am, h),
                    h,
                    bucket_of(pv3, h),
                );
                let unext = UpdateState { errs: ucur.errs + r1.errs, ..r1 };
                assert(updates_fold(ucur, reg, am, pv3, handles1.skip(t as int)) == updates_fold(
                    unext,
                    reg,
                    am,
                    pv3,
                    handles1.skip(t + 1),
                ));
                assert(unext =~= (UpdateState {
                    instances: self.spawned.instances_view(),
                    records: world@.records,
                    next_id: world.next_id,
                    errs: errs@.map_values(|x: PrefabError| x@),
                }));
            }
            t += 1;
        }
        self.updates = Vec::new();
        proof {
            assert(handles1.skip(handles1.len() as int) =~= Seq::<u64>::empty());
            assert(self.updates@ =~= Seq::<u64>::empty());
        }
        let ghost u4 = updates_fold(u3, reg, am, pv3, handles1);
        // Perform pending parent attachments for instances now spawned:
        // records without a parent relationship — the snapshot's roots —
        // are attached to the requested parent.
        let ghost wq = self.with_parent@;
        let ghost inst4 = self.spawned.instances_view();
        let ghost recs4 = world@.records;
        let mut kept: Vec<(u128, u64)> = Vec::new();
        let mut w: usize = 0;
        proof {
            assert(wq.skip(0) =~= wq);
        }
        while w < self.with_parent.len()
            invariant
                w <= self.with_parent@.len(),
                wq == self.with_parent@,
                self.events_seen == events@.len(),
                world.wf(),
                world@.registry == reg,
                world.next_id == u4.next_id,
                inst4 == self.spawned.instances_view(),
                pv3 == self.spawned.prefabs_view(),
                self.spawned.next_instance == old(self).spawned.next_instance,
                self.to_despawn@ == Seq::<u128>::empty(),
                self.to_spawn@ == s3.retained,
                self.updates@ == Seq::<u64>::empty(),
                parent_fold(recs4, inst4, wq) == ({
                    let (rr, kk) = parent_fold(world@.records, inst4, wq.skip(w as int));
                    (rr, kept@ + kk)
                }),
            decreases self.with_parent@.len() - w,
        {
            proof {
                assert(wq.skip(w as int)[0] == wq[w as int]);
                assert(wq.skip(w as int).drop_first() =~= wq.skip(w + 1));
            }
            let (id, parent) = self.with_parent[w];
            let ghost iv = self.spawned.instances_view();
            match self.spawned.find_instance(id) {
                None => {
                    let ghost kb = kept@;
                    kept.push((id, parent));
                    proof {
                        let (rr, kk) = parent_fold(world@.records, inst4, wq.skip(w + 1));
                        assert(kept@ + kk =~= kb + (Seq::empty().push((id, parent)) + kk));
                    }
                },
                Some(i) => {
                    proof {
                        lemma_inst_find(iv, id);
                    }
                    let ghost remap = iv[i as int].1;
                    let ghost recs_in = world@.records;
                    let n = self.spawned.instances[i].1.entity_map.entries.len();
                    let mut q: usize = 0;
                    proof {
                        assert(remap.skip(0) =~= remap);
                        assert(self.spawned.instances@[i as int].1@ == remap);
                    }
                    while q < n
                        invariant
                            q <= n,
                            i < self.spawned.instances@.len(),
                            self.events_seen == events@.len(),
                            n == self.spawned.instances@[i as int].1@.len(),
                            remap == self.spawned.instances@[i as int].1@,
                            world.wf(),
                            world@.registry == reg,
                            world.next_id == u4.next_id,
                            inst4 == self.spawned.instances_view(),
                            pv3 == self.spawned.prefabs_view(),
                            self.spawned.next_instance == old(self).spawned.next_instance,
                            attach_fold(recs_in, remap, parent) == attach_fold(
                                world@.records,
                                remap.skip(q as int),
                                parent,
                            ),
                        decreases n - q,
                    {
                        proof {
                            assert(remap.skip(q as int)[0] == remap[q as int]);
                            assert(remap.skip(q as int).drop_first() =~= remap.skip(q + 1));
                        }
                        let rid = self.spawned.instances[i].1.entity_map.entries[q].1;
                        proof {
                            assert(rid == remap[q as int].1);
                        }
                        if world.contains(rid) {
                            proof {
                                crate::world::lemma_find_record(world@.records, rid);
                            }
                            if !world.has_parent(rid) {
                                world.attach_parent(parent, rid);
                            }
                        }
                        q += 1;
                    }
                    proof {
                        assert(remap.skip(remap.len() as int) =~= Seq::<(u32, u64)>::empty());
                        assert(attach_fold(recs_in, remap, parent) == world@.records);
                        assert(iv[i as int].1 == inst4[i as int].1);
                    }
                },
            }
            w += 1;
        }
        self.with_parent = kept;
        proof {
            assert(wq.skip(wq.len() as int) =~= Seq::<(u128, u64)>::empty());
            assert(self.with_parent@ + Seq::<(u128, u64)>::empty() =~= self.with_parent@);
            // Tie the exec end state to the phase folds the contract names.
            assert(handles_spec == handles1);
            assert(dq == old(self).to_despawn@);
            assert(sq == old(self).to_spawn@);
            assert(wq == old(self).with_parent@);
            let (inst2, recs2) = despawn_fold(
                old(self).spawned.instances_view(),
                old(world)@.records,
                old(self).to_despawn@,
            );
            assert(s2 =~= (SpawnQueueState {
                instances: inst2,
                prefabs: old(self).spawned.prefabs_view(),
                records: recs2,
                next_id: old(world).next_id,
                retained: Seq::empty(),
                errs: Seq::empty(),
            }));
            assert(u3 =~= (UpdateState {
                instances: s3.instances,
                records: s3.records,
                next_id: s3.next_id,
                errs: s3.errs,
            }));
            assert(pv3 == s3.prefabs);
        }
        errs
    }

    /// Destroy an instance immediately, blocking.
    pub fn despawn_sync(&mut self, world: &mut World, id: &PrefabInstance)
        requires
            old(world).wf(),
        ensures
            final(world).wf(),
            final(world).next_id == old(world).next_id,
            final(world)@.registry == old(world)@.registry,
            final(self).spawned.prefabs_view() == old(self).spawned.prefabs_view(),
            match inst_find(old(self).spawned.instances_view(), id.0) {
                Some(i) => {
                    &&& final(world)@.records == despawn_records(
                        old(world)@.records,
                        old(self).spawned.instances_view()[i].1,
                    )
                    &&& final(self).spawned.instances_view() == old(
                        self,
                    ).spawned.instances_view().remove(i)
                },
                None => {
                    &&& final(world)@ == old(world)@
                    &&& final(self).spawned.instances_view()
                        == old(self).spawned.instances_view()
                },
            },
    {
        self.spawned.despawn(world, id.0);
    }
}

/// One changed prefab handle on a holder record: what the per-tick update
/// system reacts to.
#[derive(Clone, Copy, PartialEq, Eq, Structural, Debug)]
pub struct ChangedPrefab {
    /// The record holding the prefab handle.
    pub entity: u64,
    /// The handle now held.
    pub handle: u64,
    /// The instance spawned for the previous handle, if any.
    pub instance: Option<PrefabInstance>,
}

/// The queues after the update system reacted to a list of changes: per
/// change, a spawn request under the holder as parent, and a despawn
/// request for the superseded instance.
pub open spec fn update_system_fold(
    to_spawn: Seq<(u64, u128)>,
    with_parent: Seq<(u128, u64)>,
    to_despawn: Seq<u128>,
    next: u128,
    items: Seq<ChangedPrefab>,
) -> (Seq<(u64, u128)>, Seq<(u128, u64)>, Seq<u128>, u128)
    decreases items.len(),
{
    if items.len() == 0 {
        (to_spawn, with_parent, to_despawn, next)
    } else {
        let c = items[0];
        update_system_fold(
            to_spawn.push((c.handle, next)),
            with_parent.push((next, c.entity)),
            match c.instance {
                Some(inst) => to_despawn.push(inst.0),
                None => to_despawn,
            },
            (next + 1) as u128,
            items.drop_first(),
        )
    }
}

/// React to changed prefab handles: spawn a fresh instance for each, to
/// be attached under its holder, and request the despawn of the instance
/// it supersedes. Returns the new instances, in order.
pub fn prefab_update_system(spawner: &mut PrefabSpawner, changed: &Vec<ChangedPrefab>) -> (r: Vec<
    PrefabInstance,
>)
    requires
        old(spawner).spawned.next_instance + changed@.len() <= u128::MAX,
    ensures
        ({
            let (ts, wp, td, nx) = update_system_fold(
                old(spawner).to_spawn@,
                old(spawner).with_parent@,
                old(spawner).to_despawn@,
                old(spawner).spawned.next_instance,
                changed@,
            );
            &&& final(spawner).to_spawn@ == ts
            &&& final(spawner).with_parent@ == wp
            &&& final(spawner).to_despawn@ == td
            &&& final(spawner).spawned.next_instance == nx
        }),
        final(spawner).spawned.instances_view() == old(spawner).spawned.instances_view(),
        final(spawner).spawned.prefabs_view() == old(spawner).spawned.prefabs_view(),
        final(spawner).updates@ == old(spawner).updates@,
        final(spawner).events_seen == old(spawner).events_seen,
        r@.len() == changed@.len(),
        forall|j: int|
            0 <= j < changed@.len() ==> (#[trigger] r@[j]).0 == old(
                spawner,
            ).spawned.next_instance + j,
{
    let ghost cm = changed@;
    let mut r: Vec<PrefabInstance> = Vec::new();
    let mut j: usize = 0;
    proof {
        assert(cm.skip(0) =~= cm);
    }
    while j < changed.len()
        invariant
            j <= changed@.len(),
            cm == changed@,
            r@.len() == j,
            spawner.spawned.next_instance == old(spawner).spawned.next_instance + j,
            old(spawner).spawned.next_instance + changed@.len() <= u128::MAX,
            forall|q: int|
                0 <= q < j ==> (#[trigger] r@[q]).0 == old(spawner).spawned.next_instance + q,
            spawner.spawned.instances_view() == old(spawner).spawned.instances_view(),
            spawner.spawned.prefabs_view() == old(spawner).spawned.prefabs_view(),
            spawner.updates@ == old(spawner).updates@,
            spawner.events_seen == old(spawner).events_seen,
            update_system_fold(
                old(spawner).to_spawn@,
                old(spawner).with_parent@,
                old(spawner).to_despawn@,
                old(spawner).spawned.next_instance,
                cm,
            ) == update_system_fold(
                spawner.to_spawn@,
                spawner.with_parent@,
                spawner.to_despawn@,
                spawner.spawned.next_instance,
                cm.skip(j as int),
            ),
        decreases changed@.len() - j,
    {
        proof {
            assert(cm.skip(j as int)[0] == cm[j as int]);
            assert(cm.skip(j as int).drop_first() =~= cm.skip(j + 1));
        }
        let c = changed[j];
        let inst = spawner.spawn(c.handle, Some(c.entity));
        match c.instance {
            Some(old_inst) => {
                spawner.despawn(&old_inst);
            },
            None => {
            },
        }
        r.push(inst);
        j += 1;
    }
    proof {
        assert(cm.skip(cm.len() as int) =~= Seq::<ChangedPrefab>::empty());
    }
    r
}

} // verus!
