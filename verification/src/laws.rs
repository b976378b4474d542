//! Laws of the writer, proved over [`write_spec`]: instantiations through
//! independent remap tables never alias, re-running a write through the
//! same table creates nothing new, ignored ids are never created, removal
//! wins over modification, and a patch entity without a snapshot
//! counterpart carries exactly its appended values.
use crate::asset::{ignore_contains, lookup_patch, PatchModel, PrefabEntityModel};
use crate::registry::RegistrationModel;
use crate::world::{find_record, remap_get, RecordModel};
use crate::writer::{
    patch_pass_processes, st_resolve, write_entity, write_pass_patch, write_pass_rewrite,
    write_pass_snapshot, write_spec, WriteState,
};
use vstd::prelude::*;

verus! {

/// The state invariant the writer maintains: every record id and every
/// remap target lies below the allocation counter.
pub open spec fn st_ok(st: WriteState) -> bool {
    &&& forall|i: int|
        0 <= i < st.records.len() ==> (#[trigger] st.records[i]).id < st.next_id
    &&& forall|i: int| 0 <= i < st.remap.len() ==> (#[trigger] st.remap[i]).1 < st.next_id
}

/// What one entity write does to the state's frame: the remap table grows
/// by at most its own entry, records grow by at most one fresh one, ids of
/// existing records stay, the counter moves by at most one, and the touch
/// list grows at the resolved record alone.
pub proof fn lemma_entity_frame(
    st: WriteState,
    local: u32,
    comps: Seq<crate::value::ValueModel>,
    patch: Option<crate::asset::PatchEntityModel>,
    reg: Seq<RegistrationModel>,
)
    requires
        st_ok(st),
        st.next_id < u64::MAX,
    ensures
        ({
            let (st1, e) = write_entity(st, local, comps, patch, reg);
            &&& st_ok(st1)
            &&& st.next_id <= st1.next_id <= st.next_id + 1
            &&& st.remap.len() <= st1.remap.len()
            &&& st1.remap.subrange(0, st.remap.len() as int) == st.remap
            &&& forall|i: int|
                st.remap.len() <= i < st1.remap.len() ==> st.next_id <= (
                #[trigger] st1.remap[i]).1 < st1.next_id && st1.remap[i].0 == local
            &&& st.records.len() <= st1.records.len() <= st.records.len() + 1
            &&& forall|i: int|
                0 <= i < st.records.len() ==> (#[trigger] st1.records[i]).id
                    == st.records[i].id
            &&& forall|i: int|
                st.records.len() <= i < st1.records.len() ==> st.next_id <= (
                #[trigger] st1.records[i]).id < st1.next_id
            &&& st.touched.len() <= st1.touched.len()
            &&& st1.touched.subrange(0, st.touched.len() as int) == st.touched
            &&& remap_get(st.remap, local) is Some ==> st1.remap == st.remap
                && st1.records.len() == st.records.len() && st1.next_id == st.next_id
            &&& remap_get(st1.remap, local) is Some
            &&& forall|k: u32|
                k != local ==> #[trigger] remap_get(st1.remap, k) == remap_get(st.remap, k)
            &&& forall|i: int|
                st.touched.len() <= i < st1.touched.len() ==> remap_get(st1.remap, local)
                    == Some((#[trigger] st1.touched[i]).1)
        }),
{
    let (str, rid) = st_resolve(st, local);
    match remap_get(st.remap, local) {
        Some(id) => {
            assert(str == st);
        },
        None => {
            crate::world::lemma_remap_get_push(st.remap, (local, st.next_id), local);
            assert(str.remap.subrange(0, st.remap.len() as int) =~= st.remap);
            assert forall|k: u32| k != local implies #[trigger] remap_get(str.remap, k)
                == remap_get(st.remap, k) by {
                crate::world::lemma_remap_get_push(st.remap, (local, st.next_id), k);
            }
        },
    }
    let (st1, e) = write_entity(st, local, comps, patch, reg);
    match find_record(str.records, rid) {
        None => {
            assert(st1 == str);
            assert(st1.touched.subrange(0, st.touched.len() as int) =~= st.touched);
            assert(st1.remap.subrange(0, st.remap.len() as int) =~= st.remap);
        },
        Some(i) => {
            crate::world::lemma_find_record(str.records, rid);
            let (vals, touched, err) = crate::writer::process_components(
                str.records[i].values,
                comps,
                patch,
                reg,
                rid,
                str.touched,
            );
            lemma_process_touched(str.records[i].values, comps, patch, reg, rid, str.touched);
            assert(st1.remap.subrange(0, st.remap.len() as int) =~= st.remap);
            assert(st1.touched.subrange(0, st.touched.len() as int) =~= st.touched);
            assert(remap_get(st1.remap, local) == Some(rid));
        },
    }
}

/// Component processing only appends touch entries, all for the record it
/// works on.
pub proof fn lemma_process_touched(
    values: Seq<crate::value::ValueModel>,
    comps: Seq<crate::value::ValueModel>,
    patch: Option<crate::asset::PatchEntityModel>,
    reg: Seq<RegistrationModel>,
    rec: u64,
    touched: Seq<(Seq<u8>, u64)>,
)
    ensures
        ({
            let (vals, t, e) = crate::writer::process_components(
                values,
                comps,
                patch,
                reg,
                rec,
                touched,
            );
            &&& touched.len() <= t.len()
            &&& t.subrange(0, touched.len() as int) == touched
            &&& forall|i: int| touched.len() <= i < t.len() ==> (#[trigger] t[i]).1 == rec
        }),
    decreases comps.len(),
{
    let (vals, t, e) = crate::writer::process_components(values, comps, patch, reg, rec, touched);
    if comps.len() == 0 {
        assert(t.subrange(0, touched.len() as int) =~= touched);
    } else {
        let c = comps[0];
        if patch matches Some(p) && crate::asset::remove_contains(p, c.name) {
            lemma_process_touched(values, comps.drop_first(), patch, reg, rec, touched);
        } else {
            match crate::writer::spec_patched(c, patch) {
                Err(path) => {
                    assert(t.subrange(0, touched.len() as int) =~= touched);
                },
                Ok(c2) => {
                    match crate::registry::reg_get(reg, c.name) {
                        None => {
                            assert(t.subrange(0, touched.len() as int) =~= touched);
                        },
                        Some(r) => {
                            if r.custom_insert {
                                lemma_process_touched(
                                    crate::writer::apply_or_insert(values, c2),
                                    comps.drop_first(),
                                    patch,
                                    reg,
                                    rec,
                                    touched,
                                );
                            } else if !r.reflect_component {
                                assert(t.subrange(0, touched.len() as int) =~= touched);
                            } else {
                                let t2 = if r.map_entities {
                                    touched.push((c.name, rec))
                                } else {
                                    touched
                                };
                                lemma_process_touched(
                                    crate::writer::apply_or_insert(values, c2),
                                    comps.drop_first(),
                                    patch,
                                    reg,
                                    rec,
                                    t2,
                                );
                                let (vals3, t3, e3) = crate::writer::process_components(
                                    crate::writer::apply_or_insert(values, c2),
                                    comps.drop_first(),
                                    patch,
                                    reg,
                                    rec,
                                    t2,
                                );
                                assert(t3.subrange(0, touched.len() as int) =~= touched) by {
                                    if r.map_entities {
                                        assert(t3.subrange(0, t2.len() as int) == t2);
                                        assert forall|j: int|
                                            0 <= j < touched.len() implies t3.subrange(
                                            0,
                                            touched.len() as int,
                                        )[j] == touched[j] by {
                                            assert(t3.subrange(0, t2.len() as int)[j] == t2[j]);
                                            assert(t2[j] == touched[j]);
                                        }
                                    }
                                }
                                assert forall|i: int|
                                    touched.len() <= i < t3.len() implies (#[trigger] t3[i]).1
                                    == rec by {
                                    if r.map_entities && i < t2.len() {
                                        assert(t3.subrange(0, t2.len() as int)[i] == t2[i]);
                                        assert(t2[i] == (c.name, rec));
                                    }
                                }
                            }
                        },
                    }
                },
            }
        }
    }
}

/// What the snapshot pass does to the state's frame.
pub proof fn lemma_pass_snapshot_frame(
    st: WriteState,
    patch: PatchModel,
    entities: Seq<PrefabEntityModel>,
    reg: Seq<RegistrationModel>,
)
    requires
        st_ok(st),
        st.next_id + entities.len() <= u64::MAX,
    ensures
        ({
            let (st1, e) = write_pass_snapshot(st, patch, entities, reg);
            &&& st_ok(st1)
            &&& st.next_id <= st1.next_id <= st.next_id + entities.len()
            &&& st.remap.len() <= st1.remap.len()
            &&& st1.remap.subrange(0, st.remap.len() as int) == st.remap
            &&& forall|i: int|
                st.remap.len() <= i < st1.remap.len() ==> st.next_id <= (
                #[trigger] st1.remap[i]).1 < st1.next_id
            &&& st.records.len() <= st1.records.len()
            &&& forall|i: int|
                0 <= i < st.records.len() ==> (#[trigger] st1.records[i]).id
                    == st.records[i].id
        }),
    decreases entities.len(),
{
    let (st1, e) = write_pass_snapshot(st, patch, entities, reg);
    if entities.len() == 0 {
        assert(st1.remap.subrange(0, st.remap.len() as int) =~= st.remap);
    } else {
        let se = entities[0];
        if ignore_contains(patch, se.entity) {
            lemma_pass_snapshot_frame(st, patch, entities.drop_first(), reg);
        } else {
            let pe = lookup_patch(patch.modify, se.entity);
            let comps = crate::writer::effective_components(se, pe);
            lemma_entity_frame(st, se.entity, comps, pe, reg);
            let (sta, ea) = write_entity(st, se.entity, comps, pe, reg);
            if ea is Some {
            } else {
                lemma_pass_snapshot_frame(sta, patch, entities.drop_first(), reg);
                let (stb, eb) = write_pass_snapshot(sta, patch, entities.drop_first(), reg);
                assert(st1 == stb);
                assert(st1.remap.subrange(0, st.remap.len() as int) =~= st.remap) by {
                    assert(st1.remap.subrange(0, sta.remap.len() as int) == sta.remap);
                    assert forall|j: int| 0 <= j < st.remap.len() implies st1.remap.subrange(
                        0,
                        st.remap.len() as int,
                    )[j] == st.remap[j] by {
                        assert(st1.remap.subrange(0, sta.remap.len() as int)[j] == sta.remap[j]);
                        assert(sta.remap.subrange(0, st.remap.len() as int)[j] == st.remap[j]);
                    }
                }
                assert forall|i: int|
                    st.remap.len() <= i < st1.remap.len() implies st.next_id <= (
                #[trigger] st1.remap[i]).1 < st1.next_id by {
                    if i < sta.remap.len() {
                        assert(st1.remap.subrange(0, sta.remap.len() as int)[i] == sta.remap[i]);
                        assert(st1.remap[i] == sta.remap[i]);
                    }
                }
                assert forall|i: int|
                    0 <= i < st.records.len() implies (#[trigger] st1.records[i]).id
                    == st.records[i].id by {
                    assert(sta.records[i].id == st.records[i].id);
                }
            }
        }
    }
}

/// What the patch pass does to the state's frame.
pub proof fn lemma_pass_patch_frame(
    st: WriteState,
    patch: PatchModel,
    entities: Seq<PrefabEntityModel>,
    reg: Seq<RegistrationModel>,
    k: int,
)
    requires
        st_ok(st),
        st.next_id + patch.modify.len() - k <= u64::MAX,
        0 <= k <= patch.modify.len(),
    ensures
        ({
            let (st1, e) = write_pass_patch(st, patch, entities, reg, k);
            &&& st_ok(st1)
            &&& st.next_id <= st1.next_id <= st.next_id + patch.modify.len() - k
            &&& st.remap.len() <= st1.remap.len()
            &&& st1.remap.subrange(0, st.remap.len() as int) == st.remap
            &&& forall|i: int|
                st.remap.len() <= i < st1.remap.len() ==> st.next_id <= (
                #[trigger] st1.remap[i]).1 < st1.next_id
            &&& st.records.len() <= st1.records.len()
            &&& forall|i: int|
                0 <= i < st.records.len() ==> (#[trigger] st1.records[i]).id
                    == st.records[i].id
        }),
    decreases patch.modify.len() - k,
{
    let (st1, e) = write_pass_patch(st, patch, entities, reg, k);
    if k >= patch.modify.len() {
        assert(st1.remap.subrange(0, st.remap.len() as int) =~= st.remap);
    } else if patch_pass_processes(patch, entities, k) {
        let pe = patch.modify[k];
        lemma_entity_frame(st, pe.entity, pe.append, None, reg);
        let (sta, ea) = write_entity(st, pe.entity, pe.append, None, reg);
        if ea is Some {
        } else {
            lemma_pass_patch_frame(sta, patch, entities, reg, k + 1);
            let (stb, eb) = write_pass_patch(sta, patch, entities, reg, k + 1);
            assert(st1 == stb);
            assert(st1.remap.subrange(0, st.remap.len() as int) =~= st.remap) by {
                assert(st1.remap.subrange(0, sta.remap.len() as int) == sta.remap);
                assert forall|j: int| 0 <= j < st.remap.len() implies st1.remap.subrange(
                    0,
                    st.remap.len() as int,
                )[j] == st.remap[j] by {
                    assert(st1.remap.subrange(0, sta.remap.len() as int)[j] == sta.remap[j]);
                    assert(sta.remap.subrange(0, st.remap.len() as int)[j] == st.remap[j]);
                }
            }
            assert forall|i: int|
                st.remap.len() <= i < st1.remap.len() implies st.next_id <= (
            #[trigger] st1.remap[i]).1 < st1.next_id by {
                if i < sta.remap.len() {
                    assert(st1.remap.subrange(0, sta.remap.len() as int)[i] == sta.remap[i]);
                    assert(st1.remap[i] == sta.remap[i]);
                }
            }
            assert forall|i: int|
                0 <= i < st.records.len() implies (#[trigger] st1.records[i]).id
                == st.records[i].id by {
                assert(sta.records[i].id == st.records[i].id);
            }
        }
    } else {
        lemma_pass_patch_frame(st, patch, entities, reg, k + 1);
    }
}

/// The rewrite pass leaves record count and record ids alone.
pub proof fn lemma_pass_rewrite_frame(
    records: Seq<RecordModel>,
    touched: Seq<(Seq<u8>, u64)>,
    remap: Seq<(u32, u64)>,
)
    ensures
        ({
            let r2 = write_pass_rewrite(records, touched, remap);
            &&& r2.len() == records.len()
            &&& forall|i: int|
                0 <= i < records.len() ==> (#[trigger] r2[i]).id == records[i].id
        }),
    decreases touched.len(),
{
    if touched.len() > 0 {
        let r1 = crate::writer::rewrite_record(records, touched[0].1, touched[0].0, remap);
        crate::world::lemma_find_record(records, touched[0].1);
        lemma_pass_rewrite_frame(r1, touched.drop_first(), remap);
    }
}

/// What a whole write does to the state's frame.
pub proof fn lemma_write_frame(
    patch: PatchModel,
    entities: Seq<PrefabEntityModel>,
    reg: Seq<RegistrationModel>,
    st: WriteState,
)
    requires
        st_ok(st),
        st.next_id + entities.len() + patch.modify.len() <= u64::MAX,
    ensures
        ({
            let (st1, e) = write_spec(patch, entities, reg, st);
            &&& st.next_id <= st1.next_id <= st.next_id + entities.len() + patch.modify.len()
            &&& st.remap.len() <= st1.remap.len()
            &&& st1.remap.subrange(0, st.remap.len() as int) == st.remap
            &&& forall|i: int|
                st.remap.len() <= i < st1.remap.len() ==> st.next_id <= (
                #[trigger] st1.remap[i]).1 < st1.next_id
            &&& forall|i: int|
                0 <= i < st1.remap.len() ==> (#[trigger] st1.remap[i]).1 < st1.next_id
        }),
{
    lemma_pass_snapshot_frame(st, patch, entities, reg);
    let (sta, ea) = write_pass_snapshot(st, patch, entities, reg);
    if ea is Some {
    } else {
        lemma_pass_patch_frame(sta, patch, entities, reg, 0);
        let (stb, eb) = write_pass_patch(sta, patch, entities, reg, 0);
        let (st1, e) = write_spec(patch, entities, reg, st);
        assert(st1.remap == stb.remap);
        assert(st1.remap.subrange(0, st.remap.len() as int) =~= st.remap) by {
            assert(stb.remap.subrange(0, sta.remap.len() as int) == sta.remap);
            assert forall|j: int| 0 <= j < st.remap.len() implies stb.remap.subrange(
                0,
                st.remap.len() as int,
            )[j] == st.remap[j] by {
                assert(stb.remap.subrange(0, sta.remap.len() as int)[j] == sta.remap[j]);
                assert(sta.remap.subrange(0, st.remap.len() as int)[j] == st.remap[j]);
            }
        }
        assert forall|i: int|
            st.remap.len() <= i < st1.remap.len() implies st.next_id <= (
        #[trigger] st1.remap[i]).1 < st1.next_id by {
            if i < sta.remap.len() {
                assert(stb.remap.subrange(0, sta.remap.len() as int)[i] == sta.remap[i]);
                assert(st1.remap[i] == sta.remap[i]);
            }
        }
    }
}

/// Two instantiations of prefabs through independent remap tables, one
/// after the other on the same collection, produce disjoint sets of live
/// record identities: no record of the first instance is aliased by the
/// second.
pub proof fn law_instances_disjoint(
    patch1: PatchModel,
    entities1: Seq<PrefabEntityModel>,
    patch2: PatchModel,
    entities2: Seq<PrefabEntityModel>,
    reg: Seq<RegistrationModel>,
    records0: Seq<RecordModel>,
    next0: u64,
)
    requires
        forall|i: int| 0 <= i < records0.len() ==> (#[trigger] records0[i]).id < next0,
        next0 + entities1.len() + patch1.modify.len() + entities2.len() + patch2.modify.len()
            <= u64::MAX,
    ensures
        ({
            let st0 = WriteState {
                records: records0,
                next_id: next0,
                remap: Seq::empty(),
                touched: Seq::empty(),
            };
            let (st1, e1) = write_spec(patch1, entities1, reg, st0);
            let st0b = WriteState {
                records: st1.records,
                next_id: st1.next_id,
                remap: Seq::empty(),
                touched: Seq::empty(),
            };
            let (st2, e2) = write_spec(patch2, entities2, reg, st0b);
            forall|i: int, j: int|
                0 <= i < st1.remap.len() && 0 <= j < st2.remap.len() ==> (
                #[trigger] st1.remap[i]).1 != (#[trigger] st2.remap[j]).1
        }),
{
    let st0 = WriteState {
        records: records0,
        next_id: next0,
        remap: Seq::empty(),
        touched: Seq::empty(),
    };
    lemma_write_frame(patch1, entities1, reg, st0);
    let (st1, e1) = write_spec(patch1, entities1, reg, st0);
    let st0b = WriteState {
        records: st1.records,
        next_id: st1.next_id,
        remap: Seq::empty(),
        touched: Seq::empty(),
    };
    assert(st_ok(st0b)) by {
        lemma_pass_snapshot_frame(st0, patch1, entities1, reg);
        let (sta, ea) = write_pass_snapshot(st0, patch1, entities1, reg);
        if ea is Some {
        } else {
            lemma_pass_patch_frame(sta, patch1, entities1, reg, 0);
            let (stb, eb) = write_pass_patch(sta, patch1, entities1, reg, 0);
            if eb is Some {
            } else {
                lemma_pass_rewrite_frame(stb.records, stb.touched, stb.remap);
            }
        }
    }
    lemma_write_frame(patch2, entities2, reg, st0b);
}

/// Extending a remap table preserves every lookup that already succeeds.
pub proof fn lemma_remap_get_extend(r1: Seq<(u32, u64)>, r2: Seq<(u32, u64)>, k: u32)
    requires
        r1.len() <= r2.len(),
        r2.subrange(0, r1.len() as int) == r1,
        remap_get(r1, k) is Some,
    ensures
        remap_get(r2, k) == remap_get(r1, k),
    decreases r1.len(),
{
    if r1.len() > 0 {
        assert(r2[0] == r1[0]) by {
            assert(r2.subrange(0, r1.len() as int)[0] == r1[0]);
        }
        if r1[0].0 != k {
            assert(r2.drop_first().subrange(0, r1.drop_first().len() as int)
                =~= r1.drop_first()) by {
                assert forall|j: int| 0 <= j < r1.len() - 1 implies #[trigger] r2.drop_first()[j]
                    == r1.drop_first()[j] by {
                    assert(r2.subrange(0, r1.len() as int)[j + 1] == r1[j + 1]);
                }
            }
            lemma_remap_get_extend(r1.drop_first(), r2.drop_first(), k);
        }
    }
}

/// An id in the patch's ignore set for which the remap table has no entry
/// is never created: the table still has no entry for it after a write,
/// however the patch and prefab otherwise read.
pub proof fn law_ignored_never_created(
    patch: PatchModel,
    entities: Seq<PrefabEntityModel>,
    reg: Seq<RegistrationModel>,
    st: WriteState,
    id: u32,
)
    requires
        st_ok(st),
        st.next_id + entities.len() + patch.modify.len() <= u64::MAX,
        ignore_contains(patch, id),
        remap_get(st.remap, id) is None,
    ensures
        ({
            let (st1, e) = write_spec(patch, entities, reg, st);
            remap_get(st1.remap, id) is None
        }),
{
    lemma_pass_snapshot_ignored(st, patch, entities, reg, id);
    lemma_pass_snapshot_frame(st, patch, entities, reg);
    let (sta, ea) = write_pass_snapshot(st, patch, entities, reg);
    if ea is Some {
    } else {
        lemma_pass_patch_ignored(sta, patch, entities, reg, 0, id);
    }
}

/// The snapshot pass never maps an ignored id.
proof fn lemma_pass_snapshot_ignored(
    st: WriteState,
    patch: PatchModel,
    entities: Seq<PrefabEntityModel>,
    reg: Seq<RegistrationModel>,
    id: u32,
)
    requires
        st_ok(st),
        st.next_id + entities.len() <= u64::MAX,
        ignore_contains(patch, id),
        remap_get(st.remap, id) is None,
    ensures
        ({
            let (st1, e) = write_pass_snapshot(st, patch, entities, reg);
            remap_get(st1.remap, id) is None
        }),
    decreases entities.len(),
{
    if entities.len() > 0 {
        let se = entities[0];
        if ignore_contains(patch, se.entity) {
            lemma_pass_snapshot_ignored(st, patch, entities.drop_first(), reg, id);
        } else {
            let pe = lookup_patch(patch.modify, se.entity);
            let comps = crate::writer::effective_components(se, pe);
            lemma_entity_frame(st, se.entity, comps, pe, reg);
            let (sta, ea) = write_entity(st, se.entity, comps, pe, reg);
            assert(se.entity != id);
            if ea is Some {
            } else {
                lemma_pass_snapshot_ignored(sta, patch, entities.drop_first(), reg, id);
            }
        }
    }
}

/// The patch pass never maps an ignored id.
proof fn lemma_pass_patch_ignored(
    st: WriteState,
    patch: PatchModel,
    entities: Seq<PrefabEntityModel>,
    reg: Seq<RegistrationModel>,
    k: int,
    id: u32,
)
    requires
        st_ok(st),
        0 <= k <= patch.modify.len(),
        st.next_id + patch.modify.len() - k <= u64::MAX,
        ignore_contains(patch, id),
        remap_get(st.remap, id) is None,
    ensures
        ({
            let (st1, e) = write_pass_patch(st, patch, entities, reg, k);
            remap_get(st1.remap, id) is None
        }),
    decreases patch.modify.len() - k,
{
    if k < patch.modify.len() {
        if patch_pass_processes(patch, entities, k) {
            let pe = patch.modify[k];
            lemma_entity_frame(st, pe.entity, pe.append, None, reg);
            let (sta, ea) = write_entity(st, pe.entity, pe.append, None, reg);
            assert(pe.entity != id);
            if ea is Some {
            } else {
                lemma_pass_patch_ignored(sta, patch, entities, reg, k + 1, id);
            }
        } else {
            lemma_pass_patch_ignored(st, patch, entities, reg, k + 1, id);
        }
    }
}

/// Whether the remap table already maps every id this write would process:
/// every non-ignored snapshot id and every surviving patch-only id.
pub open spec fn all_processed_mapped(
    patch: PatchModel,
    entities: Seq<PrefabEntityModel>,
    remap: Seq<(u32, u64)>,
) -> bool {
    &&& forall|i: int|
        0 <= i < entities.len() && !ignore_contains(patch, (#[trigger] entities[i]).entity)
            ==> remap_get(remap, entities[i].entity) is Some
    &&& forall|k: int|
        0 <= k < patch.modify.len() && patch_pass_processes(patch, entities, k) ==> remap_get(
            remap,
            (#[trigger] patch.modify[k]).entity,
        ) is Some
}

/// A successful write leaves every id it processed in the remap table.
proof fn lemma_write_maps_processed(
    patch: PatchModel,
    entities: Seq<PrefabEntityModel>,
    reg: Seq<RegistrationModel>,
    st: WriteState,
)
    requires
        st_ok(st),
        st.next_id + entities.len() + patch.modify.len() <= u64::MAX,
        write_spec(patch, entities, reg, st).1 is None,
    ensures
        all_processed_mapped(patch, entities, write_spec(patch, entities, reg, st).0.remap),
{
    let (sta, ea) = write_pass_snapshot(st, patch, entities, reg);
    lemma_pass_snapshot_frame(st, patch, entities, reg);
    lemma_pass_snapshot_maps(st, patch, entities, reg);
    let (stb, eb) = write_pass_patch(sta, patch, entities, reg, 0);
    lemma_pass_patch_frame(sta, patch, entities, reg, 0);
    lemma_pass_patch_maps(sta, patch, entities, reg, 0);
    let st1 = write_spec(patch, entities, reg, st).0;
    assert(st1.remap == stb.remap);
    assert forall|i: int|
        0 <= i < entities.len() && !ignore_contains(patch, (#[trigger] entities[i]).entity)
            implies remap_get(st1.remap, entities[i].entity) is Some by {
        lemma_remap_get_extend(sta.remap, stb.remap, entities[i].entity);
    }
}

/// After the snapshot pass succeeds, every non-ignored snapshot id is
/// mapped.
proof fn lemma_pass_snapshot_maps(
    st: WriteState,
    patch: PatchModel,
    entities: Seq<PrefabEntityModel>,
    reg: Seq<RegistrationModel>,
)
    requires
        st_ok(st),
        st.next_id + entities.len() <= u64::MAX,
        write_pass_snapshot(st, patch, entities, reg).1 is None,
    ensures
        forall|i: int|
            0 <= i < entities.len() && !ignore_contains(patch, (#[trigger] entities[i]).entity)
                ==> remap_get(write_pass_snapshot(st, patch, entities, reg).0.remap, entities[i].entity) is Some,
    decreases entities.len(),
{
    let (st1, e) = write_pass_snapshot(st, patch, entities, reg);
    if entities.len() > 0 {
        let se = entities[0];
        if ignore_contains(patch, se.entity) {
            lemma_pass_snapshot_maps(st, patch, entities.drop_first(), reg);
            assert forall|i: int|
                0 <= i < entities.len() && !ignore_contains(
                    patch,
                    (#[trigger] entities[i]).entity,
                ) implies remap_get(st1.remap, entities[i].entity) is Some by {
                assert(entities[i] == entities.drop_first()[i - 1]);
            }
        } else {
            let pe = lookup_patch(patch.modify, se.entity);
            let comps = crate::writer::effective_components(se, pe);
            lemma_entity_frame(st, se.entity, comps, pe, reg);
            let (sta, ea) = write_entity(st, se.entity, comps, pe, reg);
            lemma_pass_snapshot_maps(sta, patch, entities.drop_first(), reg);
            lemma_pass_snapshot_frame(sta, patch, entities.drop_first(), reg);
            assert forall|i: int|
                0 <= i < entities.len() && !ignore_contains(
                    patch,
                    (#[trigger] entities[i]).entity,
                ) implies remap_get(st1.remap, entities[i].entity) is Some by {
                if i == 0 {
                    lemma_remap_get_extend(sta.remap, st1.remap, se.entity);
                } else {
                    assert(entities[i] == entities.drop_first()[i - 1]);
                }
            }
        }
    }
}

/// After the patch pass succeeds, every surviving patch-only id is mapped.
proof fn lemma_pass_patch_maps(
    st: WriteState,
    patch: PatchModel,
    entities: Seq<PrefabEntityModel>,
    reg: Seq<RegistrationModel>,
    k: int,
)
    requires
        st_ok(st),
        0 <= k <= patch.modify.len(),
        st.next_id + patch.modify.len() - k <= u64::MAX,
        write_pass_patch(st, patch, entities, reg, k).1 is None,
    ensures
        forall|j: int|
            k <= j < patch.modify.len() && patch_pass_processes(patch, entities, j) ==> remap_get(
                write_pass_patch(st, patch, entities, reg, k).0.remap,
                (#[trigger] patch.modify[j]).entity,
            ) is Some,
    decreases patch.modify.len() - k,
{
    let (st1, e) = write_pass_patch(st, patch, entities, reg, k);
    if k < patch.modify.len() {
        if patch_pass_processes(patch, entities, k) {
            let pe = patch.modify[k];
            lemma_entity_frame(st, pe.entity, pe.append, None, reg);
            let (sta, ea) = write_entity(st, pe.entity, pe.append, None, reg);
            lemma_pass_patch_maps(sta, patch, entities, reg, k + 1);
            lemma_pass_patch_frame(sta, patch, entities, reg, k + 1);
            assert forall|j: int|
                k <= j < patch.modify.len() && patch_pass_processes(patch, entities, j) implies
                remap_get(st1.remap, (#[trigger] patch.modify[j]).entity) is Some by {
                if j == k {
                    lemma_remap_get_extend(sta.remap, st1.remap, pe.entity);
                }
            }
        } else {
            lemma_pass_patch_maps(st, patch, entities, reg, k + 1);
        }
    }
}

/// A write whose processed ids are all mapped already creates nothing: the
/// record count, the allocation counter and the remap table are untouched,
/// whatever the write's outcome.
pub proof fn lemma_write_creates_nothing(
    patch: PatchModel,
    entities: Seq<PrefabEntityModel>,
    reg: Seq<RegistrationModel>,
    st: WriteState,
)
    requires
        st_ok(st),
        st.next_id + entities.len() + patch.modify.len() <= u64::MAX,
        all_processed_mapped(patch, entities, st.remap),
    ensures
        ({
            let (st1, e) = write_spec(patch, entities, reg, st);
            &&& st1.records.len() == st.records.len()
            &&& st1.remap == st.remap
            &&& st1.next_id == st.next_id
        }),
{
    lemma_pass_snapshot_nothing(st, patch, entities, reg, entities);
    let (sta, ea) = write_pass_snapshot(st, patch, entities, reg);
    if ea is Some {
    } else {
        lemma_pass_patch_nothing(sta, patch, entities, reg, 0, st.remap);
        let (stb, eb) = write_pass_patch(sta, patch, entities, reg, 0);
        if eb is Some {
        } else {
            lemma_pass_rewrite_frame(stb.records, stb.touched, stb.remap);
        }
    }
}

/// The snapshot pass over entities whose ids are all mapped creates
/// nothing.
proof fn lemma_pass_snapshot_nothing(
    st: WriteState,
    patch: PatchModel,
    entities: Seq<PrefabEntityModel>,
    reg: Seq<RegistrationModel>,
    whole: Seq<PrefabEntityModel>,
)
    requires
        st_ok(st),
        st.next_id + entities.len() <= u64::MAX,
        forall|i: int|
            0 <= i < entities.len() && !ignore_contains(patch, (#[trigger] entities[i]).entity)
                ==> remap_get(st.remap, entities[i].entity) is Some,
    ensures
        ({
            let (st1, e) = write_pass_snapshot(st, patch, entities, reg);
            &&& st1.records.len() == st.records.len()
            &&& st1.remap == st.remap
            &&& st1.next_id == st.next_id
            &&& st_ok(st1)
        }),
    decreases entities.len(),
{
    if entities.len() > 0 {
        let se = entities[0];
        if ignore_contains(patch, se.entity) {
            assert forall|i: int|
                0 <= i < entities.drop_first().len() && !ignore_contains(
                    patch,
                    (#[trigger] entities.drop_first()[i]).entity,
                ) implies remap_get(st.remap, entities.drop_first()[i].entity) is Some by {
                assert(entities.drop_first()[i] == entities[i + 1]);
            }
            lemma_pass_snapshot_nothing(st, patch, entities.drop_first(), reg, whole);
        } else {
            let pe = lookup_patch(patch.modify, se.entity);
            let comps = crate::writer::effective_components(se, pe);
            lemma_entity_frame(st, se.entity, comps, pe, reg);
            let (sta, ea) = write_entity(st, se.entity, comps, pe, reg);
            assert(remap_get(st.remap, se.entity) is Some);
            if ea is Some {
            } else {
                assert forall|i: int|
                    0 <= i < entities.drop_first().len() && !ignore_contains(
                        patch,
                        (#[trigger] entities.drop_first()[i]).entity,
                    ) implies remap_get(sta.remap, entities.drop_first()[i].entity) is Some by {
                    assert(entities.drop_first()[i] == entities[i + 1]);
                }
                lemma_pass_snapshot_nothing(sta, patch, entities.drop_first(), reg, whole);
            }
        }
    }
}

/// The patch pass over surviving ids that are all mapped creates nothing.
proof fn lemma_pass_patch_nothing(
    st: WriteState,
    patch: PatchModel,
    entities: Seq<PrefabEntityModel>,
    reg: Seq<RegistrationModel>,
    k: int,
    remap0: Seq<(u32, u64)>,
)
    requires
        st_ok(st),
        0 <= k <= patch.modify.len(),
        st.next_id + patch.modify.len() - k <= u64::MAX,
        st.remap == remap0,
        forall|j: int|
            0 <= j < patch.modify.len() && patch_pass_processes(patch, entities, j) ==> remap_get(
                remap0,
                (#[trigger] patch.modify[j]).entity,
            ) is Some,
    ensures
        ({
            let (st1, e) = write_pass_patch(st, patch, entities, reg, k);
            &&& st1.records.len() == st.records.len()
            &&& st1.remap == st.remap
            &&& st1.next_id == st.next_id
        }),
    decreases patch.modify.len() - k,
{
    if k < patch.modify.len() {
        if patch_pass_processes(patch, entities, k) {
            let pe = patch.modify[k];
            lemma_entity_frame(st, pe.entity, pe.append, None, reg);
            let (sta, ea) = write_entity(st, pe.entity, pe.append, None, reg);
            assert(remap_get(st.remap, pe.entity) is Some);
            if ea is Some {
            } else {
                lemma_pass_patch_nothing(sta, patch, entities, reg, k + 1, remap0);
            }
        } else {
            lemma_pass_patch_nothing(st, patch, entities, reg, k + 1, remap0);
        }
    }
}

/// Hot-update idempotence: re-running a successful write through the same
/// remap table mutates the same records in place rather than creating
/// duplicates — the record count and the table after the second run equal
/// those after the first.
pub proof fn law_hot_update_in_place(
    patch: PatchModel,
    entities: Seq<PrefabEntityModel>,
    reg: Seq<RegistrationModel>,
    st: WriteState,
)
    requires
        st_ok(st),
        st.next_id + 2 * (entities.len() + patch.modify.len()) <= u64::MAX,
        write_spec(patch, entities, reg, st).1 is None,
    ensures
        ({
            let st1 = write_spec(patch, entities, reg, st).0;
            let st2 = write_spec(
                patch,
                entities,
                reg,
                WriteState {
                    records: st1.records,
                    next_id: st1.next_id,
                    remap: st1.remap,
                    touched: Seq::empty(),
                },
            ).0;
            &&& st2.records.len() == st1.records.len()
            &&& st2.remap == st1.remap
            &&& st2.next_id == st1.next_id
        }),
{
    lemma_write_maps_processed(patch, entities, reg, st);
    lemma_write_frame(patch, entities, reg, st);
    let st1 = write_spec(patch, entities, reg, st).0;
    let st1b = WriteState {
        records: st1.records,
        next_id: st1.next_id,
        remap: st1.remap,
        touched: Seq::empty(),
    };
    assert(st_ok(st1b)) by {
        lemma_pass_snapshot_frame(st, patch, entities, reg);
        let (sta, ea) = write_pass_snapshot(st, patch, entities, reg);
        lemma_pass_patch_frame(sta, patch, entities, reg, 0);
        let (stb, eb) = write_pass_patch(sta, patch, entities, reg, 0);
        lemma_pass_rewrite_frame(stb.records, stb.touched, stb.remap);
    }
    lemma_write_creates_nothing(patch, entities, reg, st1b);
}

/// Field overrides never change a value's type name.
proof fn lemma_apply_overrides_name(v: crate::value::ValueModel, ovs: Seq<crate::value::FieldModel>)
    ensures
        ({
            match crate::writer::apply_overrides(v, ovs) {
                Ok(c2) => c2.name == v.name,
                Err(_) => true,
            }
        }),
    decreases ovs.len(),
{
    if ovs.len() > 0 {
        match crate::writer::set_field(v.fields, ovs[0].path, ovs[0].data) {
            Some(fields) => {
                lemma_apply_overrides_name(
                    crate::value::ValueModel { fields, ..v },
                    ovs.drop_first(),
                );
            },
            None => {},
        }
    }
}

/// Processing components under a patch that removes type name `n` never
/// brings a value of that name onto the record.
proof fn lemma_process_no_name(
    values: Seq<crate::value::ValueModel>,
    comps: Seq<crate::value::ValueModel>,
    pe: crate::asset::PatchEntityModel,
    reg: Seq<RegistrationModel>,
    rec: u64,
    touched: Seq<(Seq<u8>, u64)>,
    n: Seq<u8>,
)
    requires
        crate::asset::remove_contains(pe, n),
        crate::writer::find_value(values, n) is None,
    ensures
        crate::writer::find_value(
            crate::writer::process_components(values, comps, Some(pe), reg, rec, touched).0,
            n,
        ) is None,
    decreases comps.len(),
{
    if comps.len() > 0 {
        let c = comps[0];
        if crate::asset::remove_contains(pe, c.name) {
            lemma_process_no_name(values, comps.drop_first(), pe, reg, rec, touched, n);
        } else {
            assert(c.name != n);
            match crate::writer::spec_patched(c, Some(pe)) {
                Err(_) => {},
                Ok(c2) => {
                    assert(c2.name == c.name) by {
                        match crate::asset::lookup_modify(pe, c.name) {
                            Some(ovs) => {
                                lemma_apply_overrides_name(c, ovs);
                            },
                            None => {},
                        }
                    }
                    match crate::registry::reg_get(reg, c.name) {
                        None => {},
                        Some(r) => {
                            if r.custom_insert || r.reflect_component {
                                let values2 = crate::writer::apply_or_insert(values, c2);
                                lemma_apply_or_insert_no_name(values, c2, n);
                                let t2 = if !r.custom_insert && r.map_entities {
                                    touched.push((c.name, rec))
                                } else {
                                    touched
                                };
                                lemma_process_no_name(
                                    values2,
                                    comps.drop_first(),
                                    pe,
                                    reg,
                                    rec,
                                    t2,
                                    n,
                                );
                            }
                        },
                    }
                },
            }
        }
    }
}

/// Apply-or-insert of a value with another name keeps a name absent.
proof fn lemma_apply_or_insert_no_name(
    values: Seq<crate::value::ValueModel>,
    v: crate::value::ValueModel,
    n: Seq<u8>,
)
    requires
        crate::writer::find_value(values, n) is None,
        v.name != n,
    ensures
        crate::writer::find_value(crate::writer::apply_or_insert(values, v), n) is None,
{
    crate::writer::lemma_find_value(values, n);
    let values2 = crate::writer::apply_or_insert(values, v);
    crate::writer::lemma_find_value(values, v.name);
    assert forall|j: int| 0 <= j < values2.len() implies values2[j].name != n by {}
    crate::writer::lemma_find_value(values2, n);
    if crate::writer::find_value(values2, n) is Some {
        let j = crate::writer::find_value(values2, n).unwrap();
        assert(values2[j].name == n);
    }
}

/// A list whose values all carry other names than `n` has none named `n`.
proof fn lemma_no_name_from_names(values: Seq<crate::value::ValueModel>, n: Seq<u8>)
    requires
        forall|j: int| 0 <= j < values.len() ==> (#[trigger] values[j]).name != n,
    ensures
        crate::writer::find_value(values, n) is None,
{
    crate::writer::lemma_find_value(values, n);
    if crate::writer::find_value(values, n) is Some {
        let j = crate::writer::find_value(values, n).unwrap();
        assert(values[j].name == n);
    }
}

/// The rewrite pass never changes which type names a record holds: a name
/// absent from a record's values stays absent.
proof fn lemma_rewrite_keeps_no_name(
    records: Seq<RecordModel>,
    touched: Seq<(Seq<u8>, u64)>,
    remap: Seq<(u32, u64)>,
    ri: int,
    n: Seq<u8>,
)
    requires
        0 <= ri < records.len(),
        crate::writer::find_value(records[ri].values, n) is None,
    ensures
        ({
            let r2 = write_pass_rewrite(records, touched, remap);
            &&& r2.len() == records.len()
            &&& crate::writer::find_value(r2[ri].values, n) is None
        }),
    decreases touched.len(),
{
    lemma_pass_rewrite_frame(records, touched, remap);
    if touched.len() > 0 {
        let r1 = crate::writer::rewrite_record(records, touched[0].1, touched[0].0, remap);
        assert(crate::writer::find_value(r1[ri].values, n) is None) by {
            match find_record(records, touched[0].1) {
                None => {},
                Some(i) => {
                    crate::world::lemma_find_record(records, touched[0].1);
                    match crate::writer::find_value(records[i].values, touched[0].0) {
                        None => {},
                        Some(j) => {
                            crate::writer::lemma_find_value(records[i].values, touched[0].0);
                            if i == ri {
                                let old_vals = records[ri].values;
                                let new_vals = r1[ri].values;
                                assert(new_vals.len() == old_vals.len());
                                crate::writer::lemma_find_value(old_vals, n);
                                assert forall|q: int|
                                    0 <= q < new_vals.len() implies (#[trigger] new_vals[q]).name
                                    != n by {
                                    assert(new_vals[q].name == old_vals[q].name);
                                }
                                lemma_no_name_from_names(new_vals, n);
                            }
                        },
                    }
                },
            }
        }
        assert(r1.len() == records.len()) by {
            match find_record(records, touched[0].1) {
                None => {},
                Some(i) => {
                    crate::world::lemma_find_record(records, touched[0].1);
                },
            }
        }
        lemma_rewrite_keeps_no_name(r1, touched.drop_first(), remap, ri, n);
    }
}

/// The record `rid` is pinned for snapshot-local id `id`: the remap table
/// sends `id` and only `id` to it, and it sits at position `ri`, the only
/// record with that identity.
pub open spec fn record_pinned(st: WriteState, id: u32, rid: u64, ri: int) -> bool {
    &&& remap_get(st.remap, id) == Some(rid)
    &&& forall|q: int|
        0 <= q < st.remap.len() && (#[trigger] st.remap[q]).1 == rid ==> st.remap[q].0 == id
    &&& 0 <= ri < st.records.len()
    &&& st.records[ri].id == rid
    &&& forall|q: int|
        0 <= q < st.records.len() && q != ri ==> (#[trigger] st.records[q]).id != rid
}

/// Every record the touch list names lies below the allocation counter.
pub open spec fn touched_ok(st: WriteState) -> bool {
    forall|q: int| 0 <= q < st.touched.len() ==> (#[trigger] st.touched[q]).1 < st.next_id
}

/// Writing an entity with another snapshot-local id leaves a pinned record
/// untouched.
proof fn lemma_entity_avoids(
    st: WriteState,
    local: u32,
    comps: Seq<crate::value::ValueModel>,
    patch: Option<crate::asset::PatchEntityModel>,
    reg: Seq<RegistrationModel>,
    id: u32,
    rid: u64,
    ri: int,
)
    requires
        st_ok(st),
        touched_ok(st),
        st.next_id < u64::MAX,
        record_pinned(st, id, rid, ri),
        local != id,
    ensures
        ({
            let (st1, e) = write_entity(st, local, comps, patch, reg);
            &&& record_pinned(st1, id, rid, ri)
            &&& st1.records[ri] == st.records[ri]
            &&& st_ok(st1)
            &&& touched_ok(st1)
            &&& st.next_id <= st1.next_id
        }),
{
    lemma_entity_frame(st, local, comps, patch, reg);
    let (str, rr) = st_resolve(st, local);
    let (st1, e) = write_entity(st, local, comps, patch, reg);
    assert(rr != rid) by {
        match remap_get(st.remap, local) {
            Some(v) => {
                crate::world::lemma_remap_get(st.remap, local);
                if v == rid {
                    let q = choose|q: int|
                        0 <= q < st.remap.len() && st.remap[q] == (local, v) && forall|j: int|
                            0 <= j < q ==> (#[trigger] st.remap[j]).0 != local;
                    assert(st.remap[q].1 == rid);
                }
            },
            None => {
                assert(rr == st.next_id);
                assert(st.records[ri].id < st.next_id);
            },
        }
    }
    match find_record(str.records, rr) {
        None => {},
        Some(i) => {
            crate::world::lemma_find_record(str.records, rr);
            assert(str.records[i].id == rr);
            assert(i != ri) by {
                assert(str.records[ri].id == rid) by {
                    if remap_get(st.remap, local) is None {
                        assert(str.records[ri] == st.records[ri]);
                    }
                }
            }
        },
    }
    assert(touched_ok(st1)) by {
        assert forall|q: int|
            0 <= q < st1.touched.len() implies (#[trigger] st1.touched[q]).1 < st1.next_id by {
            if q < st.touched.len() {
                assert(st1.touched.subrange(0, st.touched.len() as int)[q] == st.touched[q]);
                assert(st1.touched[q] == st.touched[q]);
            } else {
                assert(remap_get(st1.remap, local) == Some(st1.touched[q].1));
                crate::world::lemma_remap_get(st1.remap, local);
                let w = choose|w: int|
                    0 <= w < st1.remap.len() && st1.remap[w] == (local, st1.touched[q].1)
                        && forall|j: int| 0 <= j < w ==> (#[trigger] st1.remap[j]).0 != local;
                assert(st1.remap[w].1 < st1.next_id);
            }
        }
    }
    assert(record_pinned(st1, id, rid, ri)) by {
        assert(remap_get(st1.remap, id) == Some(rid));
        assert forall|q: int|
            0 <= q < st1.remap.len() && (#[trigger] st1.remap[q]).1 == rid implies st1.remap[q].0
            == id by {
            if q < st.remap.len() {
                assert(st1.remap.subrange(0, st.remap.len() as int)[q] == st.remap[q]);
                assert(st1.remap[q] == st.remap[q]);
            } else {
                assert(st.next_id <= st1.remap[q].1);
                assert(rid < st.next_id) by {
                    assert(st.records[ri].id < st.next_id);
                }
            }
        }
        assert forall|q: int|
            0 <= q < st1.records.len() && q != ri implies (#[trigger] st1.records[q]).id
            != rid by {
            if q < st.records.len() {
                assert(st1.records[q].id == st.records[q].id);
            } else {
                assert(st.next_id <= st1.records[q].id);
                assert(rid < st.next_id);
            }
        }
    }
}

/// The snapshot pass over entities that all carry other ids leaves a
/// pinned record untouched.
proof fn lemma_pass_snapshot_avoids(
    st: WriteState,
    patch: PatchModel,
    entities: Seq<PrefabEntityModel>,
    reg: Seq<RegistrationModel>,
    id: u32,
    rid: u64,
    ri: int,
)
    requires
        st_ok(st),
        touched_ok(st),
        st.next_id + entities.len() <= u64::MAX,
        record_pinned(st, id, rid, ri),
        forall|j: int| 0 <= j < entities.len() ==> (#[trigger] entities[j]).entity != id,
    ensures
        ({
            let (st1, e) = write_pass_snapshot(st, patch, entities, reg);
            &&& record_pinned(st1, id, rid, ri)
            &&& st1.records[ri] == st.records[ri]
            &&& st_ok(st1)
            &&& touched_ok(st1)
            &&& st.next_id <= st1.next_id
        }),
    decreases entities.len(),
{
    if entities.len() > 0 {
        let se = entities[0];
        if ignore_contains(patch, se.entity) {
            lemma_pass_snapshot_avoids(st, patch, entities.drop_first(), reg, id, rid, ri);
        } else {
            let pe = lookup_patch(patch.modify, se.entity);
            let comps = crate::writer::effective_components(se, pe);
            lemma_entity_avoids(st, se.entity, comps, pe, reg, id, rid, ri);
            lemma_entity_frame(st, se.entity, comps, pe, reg);
            let (sta, ea) = write_entity(st, se.entity, comps, pe, reg);
            if ea is Some {
            } else {
                lemma_pass_snapshot_avoids(sta, patch, entities.drop_first(), reg, id, rid, ri);
            }
        }
    }
}

/// The patch pass, when every entry it still processes carries another id,
/// leaves a pinned record untouched.
proof fn lemma_pass_patch_avoids(
    st: WriteState,
    patch: PatchModel,
    entities: Seq<PrefabEntityModel>,
    reg: Seq<RegistrationModel>,
    k: int,
    id: u32,
    rid: u64,
    ri: int,
)
    requires
        st_ok(st),
        touched_ok(st),
        0 <= k <= patch.modify.len(),
        st.next_id + patch.modify.len() - k <= u64::MAX,
        record_pinned(st, id, rid, ri),
        forall|j: int|
            k <= j < patch.modify.len() && patch_pass_processes(patch, entities, j) ==> (
            #[trigger] patch.modify[j]).entity != id,
    ensures
        ({
            let (st1, e) = write_pass_patch(st, patch, entities, reg, k);
            &&& record_pinned(st1, id, rid, ri)
            &&& st1.records[ri] == st.records[ri]
            &&& st_ok(st1)
            &&& touched_ok(st1)
            &&& st.next_id <= st1.next_id
        }),
    decreases patch.modify.len() - k,
{
    if k < patch.modify.len() {
        if patch_pass_processes(patch, entities, k) {
            let pe = patch.modify[k];
            lemma_entity_avoids(st, pe.entity, pe.append, None, reg, id, rid, ri);
            lemma_entity_frame(st, pe.entity, pe.append, None, reg);
            let (sta, ea) = write_entity(st, pe.entity, pe.append, None, reg);
            if ea is Some {
            } else {
                lemma_pass_patch_avoids(sta, patch, entities, reg, k + 1, id, rid, ri);
            }
        } else {
            lemma_pass_patch_avoids(st, patch, entities, reg, k + 1, id, rid, ri);
        }
    }
}

/// Lookups depend only on record identities: two record lists with the
/// same ids position every identity alike.
proof fn lemma_find_record_same_ids(r1: Seq<RecordModel>, r2: Seq<RecordModel>, id: u64)
    requires
        r1.len() == r2.len(),
        forall|i: int| 0 <= i < r1.len() ==> (#[trigger] r1[i]).id == r2[i].id,
    ensures
        find_record(r1, id) == find_record(r2, id),
    decreases r1.len(),
{
    if r1.len() > 0 {
        assert(r1[0].id == r2[0].id);
        if r1[0].id != id {
            assert forall|i: int|
                0 <= i < r1.drop_first().len() implies (#[trigger] r1.drop_first()[i]).id
                == r2.drop_first()[i].id by {
                assert(r1[i + 1].id == r2[i + 1].id);
            }
            lemma_find_record_same_ids(r1.drop_first(), r2.drop_first(), id);
        }
    }
}

/// Writing an entity at an unmapped id creates a fresh, pinned record and
/// fills it from an empty value list.
proof fn lemma_entity_fresh(
    st: WriteState,
    local: u32,
    comps: Seq<crate::value::ValueModel>,
    patch: Option<crate::asset::PatchEntityModel>,
    reg: Seq<RegistrationModel>,
)
    requires
        st_ok(st),
        touched_ok(st),
        st.next_id < u64::MAX,
        remap_get(st.remap, local) is None,
    ensures
        ({
            let (st1, e) = write_entity(st, local, comps, patch, reg);
            let rid = st.next_id;
            let ri = st.records.len() as int;
            let (vals, t, err) = crate::writer::process_components(
                Seq::empty(),
                comps,
                patch,
                reg,
                rid,
                st.touched,
            );
            &&& record_pinned(st1, local, rid, ri)
            &&& st1.records[ri].values == vals
            &&& st1.touched == t
            &&& e == err
            &&& st_ok(st1)
            &&& touched_ok(st1)
            &&& st1.next_id == st.next_id + 1
        }),
{
    lemma_entity_frame(st, local, comps, patch, reg);
    let (str, rid) = st_resolve(st, local);
    let rec = RecordModel { id: rid, parent: None, values: Seq::empty() };
    crate::world::lemma_find_record_push(st.records, rec, rid);
    crate::world::lemma_find_record(st.records, rid);
    assert(find_record(str.records, rid) == Some(st.records.len() as int));
    let (st1, e) = write_entity(st, local, comps, patch, reg);
    crate::world::lemma_remap_get_push(st.remap, (local, rid), local);
    lemma_process_touched(Seq::empty(), comps, patch, reg, rid, st.touched);
    let (vals, t, err) = crate::writer::process_components(
        Seq::empty(),
        comps,
        patch,
        reg,
        rid,
        st.touched,
    );
    assert(record_pinned(st1, local, rid, st.records.len() as int)) by {
        assert forall|q: int|
            0 <= q < st1.remap.len() && (#[trigger] st1.remap[q]).1 == rid implies st1.remap[q].0
            == local by {
            if q < st.remap.len() {
                assert(st1.remap.subrange(0, st.remap.len() as int)[q] == st.remap[q]);
                assert(st.remap[q].1 < st.next_id);
            }
        }
    }
    assert(touched_ok(st1)) by {
        assert forall|q: int|
            0 <= q < st1.touched.len() implies (#[trigger] st1.touched[q]).1 < st1.next_id by {
            if q < st.touched.len() {
                assert(st1.touched.subrange(0, st.touched.len() as int)[q] == st.touched[q]);
                assert(st1.touched[q] == st.touched[q]);
            } else {
                assert(st1.touched[q].1 == rid);
            }
        }
    }
}

/// The snapshot pass over entities that all carry other ids leaves an
/// unmapped id unmapped, and the state well formed.
proof fn lemma_pass_snapshot_unmapped(
    st: WriteState,
    patch: PatchModel,
    entities: Seq<PrefabEntityModel>,
    reg: Seq<RegistrationModel>,
    id: u32,
)
    requires
        st_ok(st),
        touched_ok(st),
        st.next_id + entities.len() <= u64::MAX,
        remap_get(st.remap, id) is None,
        forall|j: int| 0 <= j < entities.len() ==> (#[trigger] entities[j]).entity != id,
    ensures
        ({
            let (st1, e) = write_pass_snapshot(st, patch, entities, reg);
            &&& remap_get(st1.remap, id) is None
            &&& st_ok(st1)
            &&& touched_ok(st1)
            &&& st.next_id <= st1.next_id
        }),
    decreases entities.len(),
{
    if entities.len() > 0 {
        let se = entities[0];
        if ignore_contains(patch, se.entity) {
            lemma_pass_snapshot_unmapped(st, patch, entities.drop_first(), reg, id);
        } else {
            let pe = lookup_patch(patch.modify, se.entity);
            let comps = crate::writer::effective_components(se, pe);
            lemma_entity_frame(st, se.entity, comps, pe, reg);
            lemma_entity_touched_ok(st, se.entity, comps, pe, reg);
            let (sta, ea) = write_entity(st, se.entity, comps, pe, reg);
            if ea is Some {
            } else {
                lemma_pass_snapshot_unmapped(sta, patch, entities.drop_first(), reg, id);
            }
        }
    }
}

/// One entity write keeps the touch-list bound.
proof fn lemma_entity_touched_ok(
    st: WriteState,
    local: u32,
    comps: Seq<crate::value::ValueModel>,
    patch: Option<crate::asset::PatchEntityModel>,
    reg: Seq<RegistrationModel>,
)
    requires
        st_ok(st),
        touched_ok(st),
        st.next_id < u64::MAX,
    ensures
        touched_ok(write_entity(st, local, comps, patch, reg).0),
{
    lemma_entity_frame(st, local, comps, patch, reg);
    let (st1, e) = write_entity(st, local, comps, patch, reg);
    assert forall|q: int|
        0 <= q < st1.touched.len() implies (#[trigger] st1.touched[q]).1 < st1.next_id by {
        if q < st.touched.len() {
            assert(st1.touched.subrange(0, st.touched.len() as int)[q] == st.touched[q]);
            assert(st1.touched[q] == st.touched[q]);
        } else {
            assert(remap_get(st1.remap, local) == Some(st1.touched[q].1));
            crate::world::lemma_remap_get(st1.remap, local);
            let w = choose|w: int|
                0 <= w < st1.remap.len() && st1.remap[w] == (local, st1.touched[q].1) && forall|
                    j: int,
                |
                    0 <= j < w ==> (#[trigger] st1.remap[j]).0 != local;
            assert(st1.remap[w].1 < st1.next_id);
        }
    }
}

/// Removal wins over modification: a type name listed in the matching
/// patch entity's `remove` set is absent from the live record a freshly
/// instantiated snapshot entity produced, whatever else the patch says of
/// it.
pub proof fn law_remove_wins(
    patch: PatchModel,
    entities: Seq<PrefabEntityModel>,
    reg: Seq<RegistrationModel>,
    st: WriteState,
    i: int,
    n: Seq<u8>,
)
    requires
        st_ok(st),
        touched_ok(st),
        st.touched == Seq::<(Seq<u8>, u64)>::empty(),
        st.next_id + entities.len() + patch.modify.len() <= u64::MAX,
        0 <= i < entities.len(),
        forall|j: int|
            0 <= j < entities.len() && j != i ==> (#[trigger] entities[j]).entity
                != entities[i].entity,
        !ignore_contains(patch, entities[i].entity),
        lookup_patch(patch.modify, entities[i].entity) is Some,
        remove_contains_of(lookup_patch(patch.modify, entities[i].entity), n),
        remap_get(st.remap, entities[i].entity) is None,
        write_spec(patch, entities, reg, st).1 is None,
    ensures
        ({
            let st1 = write_spec(patch, entities, reg, st).0;
            let id = entities[i].entity;
            &&& remap_get(st1.remap, id) is Some
            &&& ({
                let rid = remap_get(st1.remap, id).unwrap();
                &&& find_record(st1.records, rid) is Some
                &&& crate::writer::find_value(
                    st1.records[find_record(st1.records, rid).unwrap()].values,
                    n,
                ) is None
            })
        }),
{
    let id = entities[i].entity;
    lemma_pass2_remove_wins(st, patch, entities, reg, i, n);
    lemma_pass_snapshot_frame(st, patch, entities, reg);
    let (sta, ea) = write_pass_snapshot(st, patch, entities, reg);
    let rid = remap_get(sta.remap, id).unwrap();
    let ri = find_record(sta.records, rid).unwrap();
    assert forall|j: int|
        0 <= j < patch.modify.len() && patch_pass_processes(patch, entities, j) implies (
    #[trigger] patch.modify[j]).entity != id by {
        assert(crate::asset::prefab_has_entity(entities, id));
    }
    lemma_pass_patch_avoids(sta, patch, entities, reg, 0, id, rid, ri);
    let (stb, eb) = write_pass_patch(sta, patch, entities, reg, 0);
    lemma_rewrite_keeps_no_name(stb.records, stb.touched, stb.remap, ri, n);
    lemma_pass_rewrite_frame(stb.records, stb.touched, stb.remap);
    let st1 = write_spec(patch, entities, reg, st).0;
    assert(find_record(st1.records, rid) == find_record(stb.records, rid)) by {
        lemma_find_record_same_ids(st1.records, stb.records, rid);
    }
    assert(find_record(stb.records, rid) == Some(ri)) by {
        crate::world::lemma_find_record(stb.records, rid);
        match find_record(stb.records, rid) {
            Some(w) => {
                assert(!(w < ri) && !(w > ri));
            },
            None => {
                assert(stb.records[ri].id == rid);
            },
        }
    }
}

/// Whether an optional patch entity removes the given name.
pub open spec fn remove_contains_of(pe: Option<crate::asset::PatchEntityModel>, n: Seq<u8>) -> bool {
    match pe {
        Some(p) => crate::asset::remove_contains(p, n),
        None => false,
    }
}

/// The snapshot pass establishes the removal law at the processed entity.
proof fn lemma_pass2_remove_wins(
    st: WriteState,
    patch: PatchModel,
    entities: Seq<PrefabEntityModel>,
    reg: Seq<RegistrationModel>,
    i: int,
    n: Seq<u8>,
)
    requires
        st_ok(st),
        touched_ok(st),
        st.next_id + entities.len() <= u64::MAX,
        0 <= i < entities.len(),
        forall|j: int|
            0 <= j < entities.len() && j != i ==> (#[trigger] entities[j]).entity
                != entities[i].entity,
        !ignore_contains(patch, entities[i].entity),
        lookup_patch(patch.modify, entities[i].entity) is Some,
        remove_contains_of(lookup_patch(patch.modify, entities[i].entity), n),
        remap_get(st.remap, entities[i].entity) is None,
        write_pass_snapshot(st, patch, entities, reg).1 is None,
    ensures
        ({
            let (st1, e) = write_pass_snapshot(st, patch, entities, reg);
            let id = entities[i].entity;
            &&& remap_get(st1.remap, id) is Some
            &&& ({
                let rid = remap_get(st1.remap, id).unwrap();
                &&& find_record(st1.records, rid) is Some
                &&& ({
                    let ri = find_record(st1.records, rid).unwrap();
                    &&& record_pinned(st1, id, rid, ri)
                    &&& crate::writer::find_value(st1.records[ri].values, n) is None
                })
            })
            &&& st_ok(st1)
            &&& touched_ok(st1)
        }),
    decreases entities.len(),
{
    let id = entities[i].entity;
    let (st1, e) = write_pass_snapshot(st, patch, entities, reg);
    if i == 0 {
        let se = entities[0];
        let pe = lookup_patch(patch.modify, se.entity);
        let comps = crate::writer::effective_components(se, pe);
        lemma_entity_fresh(st, se.entity, comps, pe, reg);
        let (sta, ea) = write_entity(st, se.entity, comps, pe, reg);
        let rid = st.next_id;
        let ri = st.records.len() as int;
        assert(crate::writer::find_value(sta.records[ri].values, n) is None) by {
            assert(crate::writer::find_value(Seq::<crate::value::ValueModel>::empty(), n)
                is None);
            lemma_process_no_name(
                Seq::empty(),
                comps,
                pe.unwrap(),
                reg,
                rid,
                st.touched,
                n,
            );
        }
        assert(ea is None);
        assert forall|j: int|
            0 <= j < entities.drop_first().len() implies (
        #[trigger] entities.drop_first()[j]).entity != id by {
            assert(entities.drop_first()[j] == entities[j + 1]);
        }
        lemma_pass_snapshot_avoids(sta, patch, entities.drop_first(), reg, id, rid, ri);
        assert(remap_get(st1.remap, id) == Some(rid));
        assert(find_record(st1.records, rid) == Some(ri)) by {
            crate::world::lemma_find_record(st1.records, rid);
            match find_record(st1.records, rid) {
                Some(w) => {
                    assert(!(w < ri) && !(w > ri));
                },
                None => {
                    assert(st1.records[ri].id == rid);
                },
            }
        }
    } else {
        let se = entities[0];
        assert(se.entity != id);
        assert forall|j: int|
            0 <= j < entities.drop_first().len() && j != i - 1 implies (
        #[trigger] entities.drop_first()[j]).entity != entities.drop_first()[i - 1].entity by {
            assert(entities.drop_first()[j] == entities[j + 1]);
            assert(entities.drop_first()[i - 1] == entities[i]);
        }
        assert(entities.drop_first()[i - 1] == entities[i]);
        if ignore_contains(patch, se.entity) {
            lemma_pass2_remove_wins(st, patch, entities.drop_first(), reg, i - 1, n);
        } else {
            let pe = lookup_patch(patch.modify, se.entity);
            let comps = crate::writer::effective_components(se, pe);
            lemma_entity_frame(st, se.entity, comps, pe, reg);
            lemma_entity_touched_ok(st, se.entity, comps, pe, reg);
            let (sta, ea) = write_entity(st, se.entity, comps, pe, reg);
            assert(ea is None);
            assert(remap_get(sta.remap, id) is None);
            lemma_pass2_remove_wins(sta, patch, entities.drop_first(), reg, i - 1, n);
        }
    }
}

/// The values and the error a component-processing run yields do not
/// depend on the incoming touch list.
proof fn lemma_process_values_indep(
    values: Seq<crate::value::ValueModel>,
    comps: Seq<crate::value::ValueModel>,
    patch: Option<crate::asset::PatchEntityModel>,
    reg: Seq<RegistrationModel>,
    rec: u64,
    t1: Seq<(Seq<u8>, u64)>,
    t2: Seq<(Seq<u8>, u64)>,
)
    ensures
        crate::writer::process_components(values, comps, patch, reg, rec, t1).0
            == crate::writer::process_components(values, comps, patch, reg, rec, t2).0,
        crate::writer::process_components(values, comps, patch, reg, rec, t1).2
            == crate::writer::process_components(values, comps, patch, reg, rec, t2).2,
    decreases comps.len(),
{
    if comps.len() > 0 {
        let c = comps[0];
        if patch matches Some(p) && crate::asset::remove_contains(p, c.name) {
            lemma_process_values_indep(values, comps.drop_first(), patch, reg, rec, t1, t2);
        } else {
            match crate::writer::spec_patched(c, patch) {
                Err(_) => {},
                Ok(c2) => {
                    match crate::registry::reg_get(reg, c.name) {
                        None => {},
                        Some(r) => {
                            if r.custom_insert {
                                lemma_process_values_indep(
                                    crate::writer::apply_or_insert(values, c2),
                                    comps.drop_first(),
                                    patch,
                                    reg,
                                    rec,
                                    t1,
                                    t2,
                                );
                            } else if r.reflect_component {
                                let t1b = if r.map_entities {
                                    t1.push((c.name, rec))
                                } else {
                                    t1
                                };
                                let t2b = if r.map_entities {
                                    t2.push((c.name, rec))
                                } else {
                                    t2
                                };
                                lemma_process_values_indep(
                                    crate::writer::apply_or_insert(values, c2),
                                    comps.drop_first(),
                                    patch,
                                    reg,
                                    rec,
                                    t1b,
                                    t2b,
                                );
                            }
                        },
                    }
                },
            }
        }
    }
}

/// Whether every value of a list goes through a path that records no
/// reference-rewrite touch: a custom insert, or a component type not
/// flagged as reference-bearing.
pub open spec fn append_plain(
    comps: Seq<crate::value::ValueModel>,
    reg: Seq<RegistrationModel>,
) -> bool {
    forall|i: int|
        0 <= i < comps.len() ==> match crate::registry::reg_get(
            reg,
            (#[trigger] comps[i]).name,
        ) {
            Some(r) => r.custom_insert || !r.map_entities,
            None => true,
        }
}

/// Processing values that record no touch leaves the touch list alone.
proof fn lemma_process_no_touch(
    values: Seq<crate::value::ValueModel>,
    comps: Seq<crate::value::ValueModel>,
    patch: Option<crate::asset::PatchEntityModel>,
    reg: Seq<RegistrationModel>,
    rec: u64,
    touched: Seq<(Seq<u8>, u64)>,
)
    requires
        append_plain(comps, reg),
    ensures
        crate::writer::process_components(values, comps, patch, reg, rec, touched).1 == touched,
    decreases comps.len(),
{
    if comps.len() > 0 {
        let c = comps[0];
        assert(append_plain(comps.drop_first(), reg)) by {
            assert forall|i: int|
                0 <= i < comps.drop_first().len() implies match crate::registry::reg_get(
                reg,
                (#[trigger] comps.drop_first()[i]).name,
            ) {
                Some(r) => r.custom_insert || !r.map_entities,
                None => true,
            } by {
                assert(comps.drop_first()[i] == comps[i + 1]);
            }
        }
        if patch matches Some(p) && crate::asset::remove_contains(p, c.name) {
            lemma_process_no_touch(values, comps.drop_first(), patch, reg, rec, touched);
        } else {
            match crate::writer::spec_patched(c, patch) {
                Err(_) => {},
                Ok(c2) => {
                    match crate::registry::reg_get(reg, c.name) {
                        None => {},
                        Some(r) => {
                            if r.custom_insert || r.reflect_component {
                                lemma_process_no_touch(
                                    crate::writer::apply_or_insert(values, c2),
                                    comps.drop_first(),
                                    patch,
                                    reg,
                                    rec,
                                    touched,
                                );
                            }
                        },
                    }
                },
            }
        }
    }
}

/// No entry of the touch list names the pinned record.
pub open spec fn touched_avoids(st: WriteState, rid: u64) -> bool {
    forall|q: int| 0 <= q < st.touched.len() ==> (#[trigger] st.touched[q]).1 != rid
}

/// Like [`lemma_entity_avoids`], also keeping the touch list clear of the
/// pinned record.
proof fn lemma_entity_avoids_touched(
    st: WriteState,
    local: u32,
    comps: Seq<crate::value::ValueModel>,
    patch: Option<crate::asset::PatchEntityModel>,
    reg: Seq<RegistrationModel>,
    id: u32,
    rid: u64,
    ri: int,
)
    requires
        st_ok(st),
        touched_ok(st),
        st.next_id < u64::MAX,
        record_pinned(st, id, rid, ri),
        touched_avoids(st, rid),
        local != id,
    ensures
        ({
            let (st1, e) = write_entity(st, local, comps, patch, reg);
            &&& record_pinned(st1, id, rid, ri)
            &&& st1.records[ri] == st.records[ri]
            &&& st_ok(st1)
            &&& touched_ok(st1)
            &&& touched_avoids(st1, rid)
            &&& st.next_id <= st1.next_id
        }),
{
    lemma_entity_avoids(st, local, comps, patch, reg, id, rid, ri);
    lemma_entity_frame(st, local, comps, patch, reg);
    let (st1, e) = write_entity(st, local, comps, patch, reg);
    assert forall|q: int|
        0 <= q < st1.touched.len() implies (#[trigger] st1.touched[q]).1 != rid by {
        if q < st.touched.len() {
            assert(st1.touched.subrange(0, st.touched.len() as int)[q] == st.touched[q]);
            assert(st1.touched[q] == st.touched[q]);
        } else {
            assert(remap_get(st1.remap, local) == Some(st1.touched[q].1));
            crate::world::lemma_remap_get(st1.remap, local);
            let w = choose|w: int|
                0 <= w < st1.remap.len() && st1.remap[w] == (local, st1.touched[q].1) && forall|
                    j: int,
                |
                    0 <= j < w ==> (#[trigger] st1.remap[j]).0 != local;
            assert(st1.remap[w].1 == rid ==> st1.remap[w].0 == id);
        }
    }
}

/// Like [`lemma_pass_patch_avoids`], also keeping the touch list clear of
/// the pinned record.
proof fn lemma_pass_patch_avoids_touched(
    st: WriteState,
    patch: PatchModel,
    entities: Seq<PrefabEntityModel>,
    reg: Seq<RegistrationModel>,
    k: int,
    id: u32,
    rid: u64,
    ri: int,
)
    requires
        st_ok(st),
        touched_ok(st),
        0 <= k <= patch.modify.len(),
        st.next_id + patch.modify.len() - k <= u64::MAX,
        record_pinned(st, id, rid, ri),
        touched_avoids(st, rid),
        forall|j: int|
            k <= j < patch.modify.len() && patch_pass_processes(patch, entities, j) ==> (
            #[trigger] patch.modify[j]).entity != id,
    ensures
        ({
            let (st1, e) = write_pass_patch(st, patch, entities, reg, k);
            &&& record_pinned(st1, id, rid, ri)
            &&& st1.records[ri] == st.records[ri]
            &&& st_ok(st1)
            &&& touched_ok(st1)
            &&& touched_avoids(st1, rid)
        }),
    decreases patch.modify.len() - k,
{
    if k < patch.modify.len() {
        if patch_pass_processes(patch, entities, k) {
            let pe = patch.modify[k];
            lemma_entity_avoids_touched(st, pe.entity, pe.append, None, reg, id, rid, ri);
            lemma_entity_frame(st, pe.entity, pe.append, None, reg);
            let (sta, ea) = write_entity(st, pe.entity, pe.append, None, reg);
            if ea is Some {
            } else {
                lemma_pass_patch_avoids_touched(sta, patch, entities, reg, k + 1, id, rid, ri);
            }
        } else {
            lemma_pass_patch_avoids_touched(st, patch, entities, reg, k + 1, id, rid, ri);
        }
    }
}

/// The rewrite pass leaves a record alone that no touch entry names.
proof fn lemma_rewrite_untouched(
    records: Seq<RecordModel>,
    touched: Seq<(Seq<u8>, u64)>,
    remap: Seq<(u32, u64)>,
    rid: u64,
    ri: int,
)
    requires
        0 <= ri < records.len(),
        records[ri].id == rid,
        forall|q: int| 0 <= q < records.len() && q != ri ==> (#[trigger] records[q]).id != rid,
        forall|q: int| 0 <= q < touched.len() ==> (#[trigger] touched[q]).1 != rid,
    ensures
        ({
            let r2 = write_pass_rewrite(records, touched, remap);
            &&& r2.len() == records.len()
            &&& r2[ri] == records[ri]
        }),
    decreases touched.len(),
{
    lemma_pass_rewrite_frame(records, touched, remap);
    if touched.len() > 0 {
        let r1 = crate::writer::rewrite_record(records, touched[0].1, touched[0].0, remap);
        crate::world::lemma_find_record(records, touched[0].1);
        assert(r1[ri] == records[ri]) by {
            match find_record(records, touched[0].1) {
                None => {},
                Some(i) => {
                    assert(records[i].id == touched[0].1);
                    assert(i != ri);
                },
            }
        }
        assert(r1.len() == records.len()) by {
            match find_record(records, touched[0].1) {
                None => {},
                Some(i) => {},
            }
        }
        assert forall|q: int|
            0 <= q < r1.len() && q != ri implies (#[trigger] r1[q]).id != rid by {
            match find_record(records, touched[0].1) {
                None => {},
                Some(i) => {
                    assert(r1[q].id == records[q].id);
                },
            }
        }
        lemma_rewrite_untouched(r1, touched.drop_first(), remap, rid, ri);
    }
}

/// A patch entity with no snapshot counterpart produces a live record
/// carrying exactly the values its `append` list yields when applied onto
/// an empty record, provided none of them is reference-bearing.
pub proof fn law_patch_only_append(
    patch: PatchModel,
    entities: Seq<PrefabEntityModel>,
    reg: Seq<RegistrationModel>,
    st: WriteState,
    kk: int,
)
    requires
        st_ok(st),
        touched_ok(st),
        st.next_id + entities.len() + patch.modify.len() <= u64::MAX,
        0 <= kk < patch.modify.len(),
        patch_pass_processes(patch, entities, kk),
        remap_get(st.remap, (patch.modify[kk]).entity) is None,
        append_plain((patch.modify[kk]).append, reg),
        write_spec(patch, entities, reg, st).1 is None,
    ensures
        ({
            let st1 = write_spec(patch, entities, reg, st).0;
            let id = (patch.modify[kk]).entity;
            &&& remap_get(st1.remap, id) is Some
            &&& ({
                let rid = remap_get(st1.remap, id).unwrap();
                &&& find_record(st1.records, rid) is Some
                &&& st1.records[find_record(st1.records, rid).unwrap()].values
                    == crate::writer::process_components(
                    Seq::empty(),
                    (patch.modify[kk]).append,
                    None,
                    reg,
                    rid,
                    Seq::empty(),
                ).0
            })
        }),
{
    let id = (patch.modify[kk]).entity;
    assert forall|j: int|
        0 <= j < entities.len() implies (#[trigger] entities[j]).entity != id by {
        if entities[j].entity == id {
            assert(crate::asset::prefab_has_entity(entities, id));
        }
    }
    lemma_pass_snapshot_unmapped(st, patch, entities, reg, id);
    lemma_pass_snapshot_frame(st, patch, entities, reg);
    let (sta, ea) = write_pass_snapshot(st, patch, entities, reg);
    lemma_pass3_append(sta, patch, entities, reg, 0, kk);
    lemma_pass_patch_frame(sta, patch, entities, reg, 0);
    let (stb, eb) = write_pass_patch(sta, patch, entities, reg, 0);
    let rid = remap_get(stb.remap, id).unwrap();
    let ri = find_record(stb.records, rid).unwrap();
    lemma_rewrite_untouched(stb.records, stb.touched, stb.remap, rid, ri);
    lemma_pass_rewrite_frame(stb.records, stb.touched, stb.remap);
    let st1 = write_spec(patch, entities, reg, st).0;
    assert(find_record(st1.records, rid) == find_record(stb.records, rid)) by {
        lemma_find_record_same_ids(st1.records, stb.records, rid);
    }
    lemma_process_values_indep(
        Seq::empty(),
        (patch.modify[kk]).append,
        None,
        reg,
        rid,
        sta.touched,
        Seq::empty(),
    );
}

/// The patch pass establishes the append law at the surviving entry.
proof fn lemma_pass3_append(
    st: WriteState,
    patch: PatchModel,
    entities: Seq<PrefabEntityModel>,
    reg: Seq<RegistrationModel>,
    k: int,
    kk: int,
)
    requires
        st_ok(st),
        touched_ok(st),
        0 <= k <= kk < patch.modify.len(),
        st.next_id + patch.modify.len() - k <= u64::MAX,
        patch_pass_processes(patch, entities, kk),
        remap_get(st.remap, (patch.modify[kk]).entity) is None,
        append_plain((patch.modify[kk]).append, reg),
        write_pass_patch(st, patch, entities, reg, k).1 is None,
    ensures
        ({
            let (st1, e) = write_pass_patch(st, patch, entities, reg, k);
            let id = (patch.modify[kk]).entity;
            &&& remap_get(st1.remap, id) is Some
            &&& ({
                let rid = remap_get(st1.remap, id).unwrap();
                &&& find_record(st1.records, rid) is Some
                &&& ({
                    let ri = find_record(st1.records, rid).unwrap();
                    &&& record_pinned(st1, id, rid, ri)
                    &&& touched_avoids(st1, rid)
                    &&& st1.records[ri].values == crate::writer::process_components(
                        Seq::empty(),
                        (patch.modify[kk]).append,
                        None,
                        reg,
                        rid,
                        st.touched,
                    ).0
                })
            })
            &&& st_ok(st1)
            &&& touched_ok(st1)
        }),
    decreases patch.modify.len() - k,
{
    let id = (patch.modify[kk]).entity;
    let (st1, e) = write_pass_patch(st, patch, entities, reg, k);
    if k == kk {
        let pe = patch.modify[kk];
        lemma_entity_fresh(st, pe.entity, pe.append, None, reg);
        let (sta, ea) = write_entity(st, pe.entity, pe.append, None, reg);
        assert(ea is None);
        let rid = st.next_id;
        let ri = st.records.len() as int;
        lemma_process_no_touch(Seq::empty(), pe.append, None, reg, rid, st.touched);
        assert(sta.touched == st.touched);
        assert(touched_avoids(sta, rid)) by {
            assert forall|q: int|
                0 <= q < sta.touched.len() implies (#[trigger] sta.touched[q]).1 != rid by {
                assert(st.touched[q].1 < st.next_id);
            }
        }
        assert forall|j: int|
            k + 1 <= j < patch.modify.len() && patch_pass_processes(patch, entities, j) implies (
        #[trigger] patch.modify[j]).entity != id by {
            if patch.modify[j].entity == id {
                assert(!crate::writer::is_last_for_id(patch.modify, kk));
            }
        }
        lemma_pass_patch_avoids_touched(sta, patch, entities, reg, k + 1, id, rid, ri);
        assert(find_record(st1.records, rid) == Some(ri)) by {
            crate::world::lemma_find_record(st1.records, rid);
            match find_record(st1.records, rid) {
                Some(w) => {
                    assert(!(w < ri) && !(w > ri));
                },
                None => {
                    assert(st1.records[ri].id == rid);
                },
            }
        }
        lemma_process_values_indep(
            Seq::empty(),
            pe.append,
            None,
            reg,
            rid,
            st.touched,
            st.touched,
        );
    } else {
        if patch_pass_processes(patch, entities, k) {
            let pe = patch.modify[k];
            assert(pe.entity != id) by {
                if pe.entity == id {
                    assert(!crate::writer::is_last_for_id(patch.modify, k));
                }
            }
            lemma_entity_frame(st, pe.entity, pe.append, None, reg);
            lemma_entity_touched_ok(st, pe.entity, pe.append, None, reg);
            let (sta, ea) = write_entity(st, pe.entity, pe.append, None, reg);
            assert(ea is None);
            lemma_pass3_append(sta, patch, entities, reg, k + 1, kk);
            lemma_process_values_indep(
                Seq::empty(),
                (patch.modify[kk]).append,
                None,
                reg,
                remap_get(write_pass_patch(st, patch, entities, reg, k).0.remap, id).unwrap(),
                sta.touched,
                st.touched,
            );
        } else {
            lemma_pass3_append(st, patch, entities, reg, k + 1, kk);
        }
    }
}

} // verus!
