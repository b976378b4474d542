//! The patch-apply engine: merges a prefab and a patch into the live
//! collection, creating or updating records through the remap table,
//! honoring patch overrides (append, modify, remove, ignore), and rewriting
//! entity references once every record of the pass exists.
//!
//! The whole algorithm is stated first as a pure function over the
//! mathematical models ([`write_spec`]); the executable entry point
//! [`write_to_world`] is proved to compute exactly that function.
use crate::asset::{
    ignore_contains, lookup_modify, lookup_patch, prefab_has_entity, remove_contains,
    ModifyComponent, Patch, PatchEntity, PatchEntityModel, Prefab, PrefabEntityModel,
};
use crate::registry::{reg_get, RegistrationModel};
use crate::value::{FieldData, FieldModel, Value, ValueModel};
use crate::world::{find_record, lemma_find_record, remap_get, RecordModel};
use crate::ErrorModel;
use vstd::prelude::*;

verus! {

/// The state a write pass threads along: the live records, the allocation
/// counter, the remap table's entries, and which (type name, record) pairs
/// were touched by reference-bearing values and await the rewrite pass.
#[verifier::ext_equal]
pub ghost struct WriteState {
    pub records: Seq<RecordModel>,
    pub next_id: u64,
    pub remap: Seq<(u32, u64)>,
    pub touched: Seq<(Seq<u8>, u64)>,
}

/// The position of the first field with the given path, if any.
pub open spec fn find_field(fields: Seq<FieldModel>, path: Seq<u8>) -> Option<int>
    decreases fields.len(),
{
    if fields.len() == 0 {
        None
    } else if fields[0].path == path {
        Some(0int)
    } else {
        match find_field(fields.drop_first(), path) {
            Some(i) => Some(i + 1),
            None => None,
        }
    }
}

/// What [`find_field`] returns.
pub proof fn lemma_find_field(fields: Seq<FieldModel>, path: Seq<u8>)
    ensures
        match find_field(fields, path) {
            Some(i) => 0 <= i < fields.len() && fields[i].path == path && forall|j: int|
                0 <= j < i ==> fields[j].path != path,
            None => forall|j: int| 0 <= j < fields.len() ==> fields[j].path != path,
        },
    decreases fields.len(),
{
    if fields.len() > 0 && fields[0].path != path {
        lemma_find_field(fields.drop_first(), path);
        assert forall|j: int| 1 <= j < fields.len() implies fields.drop_first()[j - 1]
            == fields[j] by {}
    }
}

/// The position of the first value with the given type name, if any.
pub open spec fn find_value(values: Seq<ValueModel>, name: Seq<u8>) -> Option<int>
    decreases values.len(),
{
    if values.len() == 0 {
        None
    } else if values[0].name == name {
        Some(0int)
    } else {
        match find_value(values.drop_first(), name) {
            Some(i) => Some(i + 1),
            None => None,
        }
    }
}

/// What [`find_value`] returns.
pub proof fn lemma_find_value(values: Seq<ValueModel>, name: Seq<u8>)
    ensures
        match find_value(values, name) {
            Some(i) => 0 <= i < values.len() && values[i].name == name && forall|j: int|
                0 <= j < i ==> values[j].name != name,
            None => forall|j: int| 0 <= j < values.len() ==> values[j].name != name,
        },
    decreases values.len(),
{
    if values.len() > 0 && values[0].name != name {
        lemma_find_value(values.drop_first(), name);
        assert forall|j: int| 1 <= j < values.len() implies values.drop_first()[j - 1]
            == values[j] by {}
    }
}

/// One override applied at a field path: the first field with that path has
/// the override's datum written over it; `None` when the path does not
/// resolve.
pub open spec fn set_field(fields: Seq<FieldModel>, path: Seq<u8>, data: FieldData) -> Option<
    Seq<FieldModel>,
> {
    match find_field(fields, path) {
        Some(i) => Some(fields.update(i, FieldModel { path: fields[i].path, data })),
        None => None,
    }
}

/// A patch's overrides applied in order onto a value; stops at the first
/// path that does not resolve and reports it.
pub open spec fn apply_overrides(v: ValueModel, overrides: Seq<FieldModel>) -> Result<
    ValueModel,
    Seq<u8>,
>
    decreases overrides.len(),
{
    if overrides.len() == 0 {
        Ok(v)
    } else {
        match set_field(v.fields, overrides[0].path, overrides[0].data) {
            Some(fields) => apply_overrides(
                ValueModel { fields, ..v },
                overrides.drop_first(),
            ),
            None => Err(overrides[0].path),
        }
    }
}

/// Apply-or-insert: when the record already holds a value of this type
/// name, the incoming value is applied over it in place; otherwise it is
/// attached at the end.
pub open spec fn apply_or_insert(values: Seq<ValueModel>, v: ValueModel) -> Seq<ValueModel> {
    match find_value(values, v.name) {
        Some(i) => values.update(i, v),
        None => values.push(v),
    }
}

/// A component after the matching patch's field overrides, if any: the
/// value cloned and each `(path, datum)` override written onto the clone.
pub open spec fn spec_patched(c: ValueModel, patch: Option<PatchEntityModel>) -> Result<
    ValueModel,
    Seq<u8>,
> {
    match patch {
        Some(p) => match lookup_modify(p, c.name) {
            Some(ovs) => apply_overrides(c, ovs),
            None => Ok(c),
        },
        None => Ok(c),
    }
}

/// One entity's effective component list processed in order against a
/// record's current values. Returns the record's new values, the updated
/// touch list, and the error that stopped processing, if any; values
/// processed before the stop remain applied.
pub open spec fn process_components(
    values: Seq<ValueModel>,
    comps: Seq<ValueModel>,
    patch: Option<PatchEntityModel>,
    reg: Seq<RegistrationModel>,
    rec: u64,
    touched: Seq<(Seq<u8>, u64)>,
) -> (Seq<ValueModel>, Seq<(Seq<u8>, u64)>, Option<ErrorModel>)
    decreases comps.len(),
{
    if comps.len() == 0 {
        (values, touched, None)
    } else {
        let c = comps[0];
        if patch matches Some(p) && remove_contains(p, c.name) {
            process_components(values, comps.drop_first(), patch, reg, rec, touched)
        } else {
            match spec_patched(c, patch) {
                Err(path) => (values, touched, Some(ErrorModel::PatchContainsWrongPath { path })),
                Ok(c2) => match reg_get(reg, c.name) {
                    None => (values, touched, Some(ErrorModel::UnregisteredType { name: c.name })),
                    Some(r) => if r.custom_insert {
                        process_components(
                            apply_or_insert(values, c2),
                            comps.drop_first(),
                            patch,
                            reg,
                            rec,
                            touched,
                        )
                    } else if !r.reflect_component {
                        (
                            values,
                            touched,
                            Some(ErrorModel::UnregisteredComponent { name: c.name }),
                        )
                    } else {
                        let t = if r.map_entities {
                            touched.push((c.name, rec))
                        } else {
                            touched
                        };
                        process_components(
                            apply_or_insert(values, c2),
                            comps.drop_first(),
                            patch,
                            reg,
                            rec,
                            t,
                        )
                    },
                },
            }
        }
    }
}

/// Resolve a snapshot-local id to a live record: an existing remap entry is
/// reused; otherwise a fresh, empty record is created and mapped — the only
/// place snapshot-sourced records come into being.
pub open spec fn st_resolve(st: WriteState, local: u32) -> (WriteState, u64) {
    match remap_get(st.remap, local) {
        Some(id) => (st, id),
        None => {
            let id = st.next_id;
            (
                WriteState {
                    records: st.records.push(
                        RecordModel { id, parent: None, values: Seq::empty() },
                    ),
                    next_id: (st.next_id + 1) as u64,
                    remap: st.remap.push((local, id)),
                    touched: st.touched,
                },
                id,
            )
        },
    }
}

/// One entity written: resolve its record, process its effective component
/// list, and store the record's new values.
pub open spec fn write_entity(
    st: WriteState,
    local: u32,
    comps: Seq<ValueModel>,
    patch: Option<PatchEntityModel>,
    reg: Seq<RegistrationModel>,
) -> (WriteState, Option<ErrorModel>) {
    let (st1, rid) = st_resolve(st, local);
    match find_record(st1.records, rid) {
        None => (st1, None),
        Some(i) => {
            let (vals, touched, err) = process_components(
                st1.records[i].values,
                comps,
                patch,
                reg,
                rid,
                st1.touched,
            );
            (
                WriteState {
                    records: st1.records.update(
                        i,
                        RecordModel { values: vals, ..st1.records[i] },
                    ),
                    touched,
                    ..st1
                },
                err,
            )
        },
    }
}

/// An entity's effective component list: the snapshot's values followed by
/// the matching patch's appended values.
pub open spec fn effective_components(
    se: PrefabEntityModel,
    patch: Option<PatchEntityModel>,
) -> Seq<ValueModel> {
    se.components + (match patch {
        Some(p) => p.append,
        None => Seq::empty(),
    })
}

/// The snapshot pass: every prefab entity in snapshot order, skipping
/// ignored ids, stopping at the first error.
pub open spec fn write_pass_snapshot(
    st: WriteState,
    patch: crate::asset::PatchModel,
    entities: Seq<PrefabEntityModel>,
    reg: Seq<RegistrationModel>,
) -> (WriteState, Option<ErrorModel>)
    decreases entities.len(),
{
    if entities.len() == 0 {
        (st, None)
    } else {
        let se = entities[0];
        if ignore_contains(patch, se.entity) {
            write_pass_snapshot(st, patch, entities.drop_first(), reg)
        } else {
            let pe = lookup_patch(patch.modify, se.entity);
            let (st1, err) = write_entity(st, se.entity, effective_components(se, pe), pe, reg);
            if err is Some {
                (st1, err)
            } else {
                write_pass_snapshot(st1, patch, entities.drop_first(), reg)
            }
        }
    }
}

/// Whether no later `modify` entry carries the same id — the entry that
/// survives indexing the patch into a map.
pub open spec fn is_last_for_id(modify: Seq<PatchEntityModel>, i: int) -> bool {
    forall|j: int| i < j < modify.len() ==> modify[j].entity != modify[i].entity
}

/// Whether the patch pass processes entry `i`: it must be the surviving
/// entry for its id, not ignored, and without a snapshot counterpart (those
/// were drained by the snapshot pass).
pub open spec fn patch_pass_processes(
    patch: crate::asset::PatchModel,
    entities: Seq<PrefabEntityModel>,
    i: int,
) -> bool {
    &&& is_last_for_id(patch.modify, i)
    &&& !ignore_contains(patch, patch.modify[i].entity)
    &&& !prefab_has_entity(entities, patch.modify[i].entity)
}

/// The patch pass: every patch entity with no snapshot counterpart, in
/// order of appearance, with only its appended values.
pub open spec fn write_pass_patch(
    st: WriteState,
    patch: crate::asset::PatchModel,
    entities: Seq<PrefabEntityModel>,
    reg: Seq<RegistrationModel>,
    i: int,
) -> (WriteState, Option<ErrorModel>)
    decreases patch.modify.len() - i,
{
    if i < 0 || i >= patch.modify.len() {
        (st, None)
    } else if patch_pass_processes(patch, entities, i) {
        let pe = patch.modify[i];
        let (st1, err) = write_entity(st, pe.entity, pe.append, None, reg);
        if err is Some {
            (st1, err)
        } else {
            write_pass_patch(st1, patch, entities, reg, i + 1)
        }
    } else {
        write_pass_patch(st, patch, entities, reg, i + 1)
    }
}

/// One datum after reference rewriting: an entity reference holding a
/// snapshot-local id the remap table knows is redirected to the live record
/// id; anything else is left alone.
pub open spec fn rewrite_data(d: FieldData, remap: Seq<(u32, u64)>) -> FieldData {
    match d {
        FieldData::Int(_) => d,
        FieldData::EntityRef(e) => if e <= u32::MAX && remap_get(remap, e as u32) is Some {
            FieldData::EntityRef(remap_get(remap, e as u32).unwrap())
        } else {
            d
        },
    }
}

/// A value with every field's datum rewritten.
pub open spec fn rewrite_value(v: ValueModel, remap: Seq<(u32, u64)>) -> ValueModel {
    ValueModel {
        fields: v.fields.map_values(
            |f: FieldModel| FieldModel { path: f.path, data: rewrite_data(f.data, remap) },
        ),
        ..v
    }
}

/// Reference rewriting for one touched (type name, record) pair.
pub open spec fn rewrite_record(
    records: Seq<RecordModel>,
    rec: u64,
    name: Seq<u8>,
    remap: Seq<(u32, u64)>,
) -> Seq<RecordModel> {
    match find_record(records, rec) {
        None => records,
        Some(i) => match find_value(records[i].values, name) {
            None => records,
            Some(j) => records.update(
                i,
                RecordModel {
                    values: records[i].values.update(
                        j,
                        rewrite_value(records[i].values[j], remap),
                    ),
                    ..records[i]
                },
            ),
        },
    }
}

/// The rewrite pass: every touched pair in order, against the final remap
/// table, so forward references resolve.
pub open spec fn write_pass_rewrite(
    records: Seq<RecordModel>,
    touched: Seq<(Seq<u8>, u64)>,
    remap: Seq<(u32, u64)>,
) -> Seq<RecordModel>
    decreases touched.len(),
{
    if touched.len() == 0 {
        records
    } else {
        write_pass_rewrite(
            rewrite_record(records, touched[0].1, touched[0].0, remap),
            touched.drop_first(),
            remap,
        )
    }
}

/// The whole write: the snapshot pass, then the patch pass, then — only
/// when both succeeded — the reference-rewrite pass. On an error the state
/// mutated so far is retained, not rolled back.
pub open spec fn write_spec(
    patch: crate::asset::PatchModel,
    entities: Seq<PrefabEntityModel>,
    reg: Seq<RegistrationModel>,
    st: WriteState,
) -> (WriteState, Option<ErrorModel>) {
    let (st1, e1) = write_pass_snapshot(st, patch, entities, reg);
    if e1 is Some {
        (st1, e1)
    } else {
        let (st2, e2) = write_pass_patch(st1, patch, entities, reg, 0);
        if e2 is Some {
            (st2, e2)
        } else {
            (
                WriteState {
                    records: write_pass_rewrite(st2.records, st2.touched, st2.remap),
                    ..st2
                },
                None,
            )
        }
    }
}

/// One entity write moves the allocation counter by at most one.
pub proof fn lemma_write_entity_next(
    st: WriteState,
    local: u32,
    comps: Seq<ValueModel>,
    patch: Option<PatchEntityModel>,
    reg: Seq<RegistrationModel>,
)
    requires
        st.next_id < u64::MAX,
    ensures
        st.next_id <= write_entity(st, local, comps, patch, reg).0.next_id <= st.next_id + 1,
{
}

/// The snapshot pass moves the allocation counter by at most one per
/// entity.
pub proof fn lemma_pass_snapshot_next(
    st: WriteState,
    patch: crate::asset::PatchModel,
    entities: Seq<PrefabEntityModel>,
    reg: Seq<RegistrationModel>,
)
    requires
        st.next_id + entities.len() <= u64::MAX,
    ensures
        st.next_id <= write_pass_snapshot(st, patch, entities, reg).0.next_id <= st.next_id
            + entities.len(),
    decreases entities.len(),
{
    if entities.len() > 0 {
        let se = entities[0];
        if ignore_contains(patch, se.entity) {
            lemma_pass_snapshot_next(st, patch, entities.drop_first(), reg);
        } else {
            let pe = lookup_patch(patch.modify, se.entity);
            let (st1, err) = write_entity(st, se.entity, effective_components(se, pe), pe, reg);
            lemma_write_entity_next(st, se.entity, effective_components(se, pe), pe, reg);
            if err is None {
                lemma_pass_snapshot_next(st1, patch, entities.drop_first(), reg);
            }
        }
    }
}

/// The patch pass moves the allocation counter by at most one per entry.
pub proof fn lemma_pass_patch_next(
    st: WriteState,
    patch: crate::asset::PatchModel,
    entities: Seq<PrefabEntityModel>,
    reg: Seq<RegistrationModel>,
    k: int,
)
    requires
        0 <= k <= patch.modify.len(),
        st.next_id + patch.modify.len() - k <= u64::MAX,
    ensures
        st.next_id <= write_pass_patch(st, patch, entities, reg, k).0.next_id <= st.next_id
            + patch.modify.len() - k,
    decreases patch.modify.len() - k,
{
    if k < patch.modify.len() {
        if patch_pass_processes(patch, entities, k) {
            let pe = patch.modify[k];
            let (st1, err) = write_entity(st, pe.entity, pe.append, None, reg);
            lemma_write_entity_next(st, pe.entity, pe.append, None, reg);
            if err is None {
                lemma_pass_patch_next(st1, patch, entities, reg, k + 1);
            }
        } else {
            lemma_pass_patch_next(st, patch, entities, reg, k + 1);
        }
    }
}

/// A whole write moves the allocation counter by at most one per entity it
/// may process.
pub proof fn lemma_write_next(
    patch: crate::asset::PatchModel,
    entities: Seq<PrefabEntityModel>,
    reg: Seq<RegistrationModel>,
    st: WriteState,
)
    requires
        st.next_id + entities.len() + patch.modify.len() <= u64::MAX,
    ensures
        st.next_id <= write_spec(patch, entities, reg, st).0.next_id <= st.next_id
            + entities.len() + patch.modify.len(),
{
    lemma_pass_snapshot_next(st, patch, entities, reg);
    let (sta, ea) = write_pass_snapshot(st, patch, entities, reg);
    if ea is None {
        lemma_pass_patch_next(sta, patch, entities, reg, 0);
    }
}

/// The models of a list of values.
pub open spec fn values_view(v: Seq<Value>) -> Seq<ValueModel> {
    v.map_values(|x: Value| x@)
}

/// The models of a touch list.
pub open spec fn touched_view(t: Seq<(Vec<u8>, u64)>) -> Seq<(Seq<u8>, u64)> {
    t.map_values(|e: (Vec<u8>, u64)| (e.0@, e.1))
}

/// The model of an optional borrowed patch entity.
pub open spec fn opt_patch_view(p: Option<&PatchEntity>) -> Option<PatchEntityModel> {
    match p {
        Some(pe) => Some(pe@),
        None => None,
    }
}

/// An owned copy of a value list.
fn clone_values(values: &Vec<Value>) -> (r: Vec<Value>)
    ensures
        r@.map_values(|v: Value| v@) == values@.map_values(|v: Value| v@),
{
    let mut r: Vec<Value> = Vec::new();
    let mut i: usize = 0;
    while i < values.len()
        invariant
            i <= values.len(),
            r@.len() == i,
            forall|j: int| 0 <= j < i ==> #[trigger] r@[j]@ == values@[j]@,
        decreases values.len() - i,
    {
        r.push(values[i].clone_value());
        i += 1;
    }
    proof {
        assert(r@.map_values(|v: Value| v@) =~= values@.map_values(|v: Value| v@));
    }
    r
}

/// Whether the patch ignores the given id.
fn ignore_has(patch: &Patch, id: u32) -> (r: bool)
    ensures
        r == ignore_contains(patch@, id),
{
    let mut i: usize = 0;
    while i < patch.ignore.len()
        invariant
            i <= patch.ignore.len(),
            forall|j: int| 0 <= j < i ==> patch@.ignore[j] != id,
        decreases patch.ignore.len() - i,
    {
        if patch.ignore[i] == id {
            assert(patch@.ignore[i as int] == id);
            return true;
        }
        i += 1;
    }
    false
}

/// The patch entity applying to the given id: the last `modify` entry
/// carrying it.
fn find_patch_entity<'a>(patch: &'a Patch, id: u32) -> (r: Option<&'a PatchEntity>)
    ensures
        match r {
            Some(pe) => lookup_patch(patch@.modify, id) == Some(pe@),
            None => lookup_patch(patch@.modify, id) == None::<PatchEntityModel>,
        },
{
    let mut j: usize = patch.modify.len();
    proof {
        assert(patch@.modify.take(j as int) =~= patch@.modify);
    }
    while j > 0
        invariant
            j <= patch.modify.len(),
            lookup_patch(patch@.modify, id) == lookup_patch(patch@.modify.take(j as int), id),
        decreases j,
    {
        proof {
            assert(patch@.modify.take(j as int).last() == patch@.modify[j - 1]);
            assert(patch@.modify.take(j as int).drop_last() =~= patch@.modify.take(j - 1));
        }
        if patch.modify[j - 1].entity == id {
            return Some(&patch.modify[j - 1]);
        }
        j -= 1;
    }
    None
}

/// Whether the patch entity removes the given type name.
fn removes_name(pe: &PatchEntity, name: &Vec<u8>) -> (r: bool)
    ensures
        r == remove_contains(pe@, name@),
{
    let mut i: usize = 0;
    while i < pe.remove.len()
        invariant
            i <= pe.remove.len(),
            forall|j: int| 0 <= j < i ==> pe@.remove[j] != name@,
        decreases pe.remove.len() - i,
    {
        if crate::registry::bytes_eq(&pe.remove[i], name) {
            assert(pe@.remove[i as int] == name@);
            return true;
        }
        i += 1;
    }
    false
}

/// The overrides the patch entity holds for the given type name.
fn find_modify<'a>(pe: &'a PatchEntity, name: &Vec<u8>) -> (r: Option<&'a ModifyComponent>)
    ensures
        match r {
            Some(m) => lookup_modify(pe@, name@) == Some(m@.overrides) && m@.name == name@,
            None => lookup_modify(pe@, name@) == None::<Seq<FieldModel>>,
        },
{
    let ghost pm = pe@;
    let mut i: usize = 0;
    proof {
        assert(PatchEntityModel { modify: pm.modify.skip(0), ..pm } =~= pm);
    }
    while i < pe.modify.len()
        invariant
            i <= pe.modify.len(),
            pm == pe@,
            lookup_modify(pm, name@) == lookup_modify(
                PatchEntityModel { modify: pm.modify.skip(i as int), ..pm },
                name@,
            ),
        decreases pe.modify.len() - i,
    {
        proof {
            assert(pm.modify.skip(i as int)[0] == pm.modify[i as int]);
            assert(pm.modify.skip(i as int).drop_first() =~= pm.modify.skip(i + 1));
            reveal_with_fuel(lookup_modify, 2);
        }
        if crate::registry::bytes_eq(&pe.modify[i].name, name) {
            return Some(&pe.modify[i]);
        }
        proof {
            assert(PatchEntityModel { modify: pm.modify.skip(i as int), ..pm }.modify.drop_first()
                =~= pm.modify.skip(i + 1));
        }
        i += 1;
    }
    proof {
        assert(pm.modify.skip(pm.modify.len() as int) =~= Seq::<
            crate::asset::ModifyComponentModel,
        >::empty());
        reveal_with_fuel(lookup_modify, 1);
    }
    None
}

/// The position of the first value with the given type name.
fn find_value_at(values: &Vec<Value>, name: &Vec<u8>) -> (r: Option<usize>)
    ensures
        match r {
            Some(i) => find_value(values@.map_values(|v: Value| v@), name@) == Some(i as int),
            None => find_value(values@.map_values(|v: Value| v@), name@) == None::<int>,
        },
{
    let ghost vm = values@.map_values(|v: Value| v@);
    let mut i: usize = 0;
    while i < values.len()
        invariant
            i <= values.len(),
            vm == values@.map_values(|v: Value| v@),
            forall|j: int| 0 <= j < i ==> #[trigger] vm[j].name != name@,
        decreases values.len() - i,
    {
        if crate::registry::bytes_eq(&values[i].name, name) {
            proof {
                assert(vm[i as int].name == name@);
                lemma_find_value(vm, name@);
                match find_value(vm, name@) {
                    Some(k) => {
                        assert(!(k < i));
                        assert(!(k > i));
                    },
                    None => {
                        assert(vm[i as int].name == name@);
                    },
                }
            }
            return Some(i);
        }
        i += 1;
    }
    proof {
        lemma_find_value(vm, name@);
    }
    None
}

/// The position of the first field with the given path.
fn find_field_at(fields: &Vec<crate::value::Field>, path: &Vec<u8>) -> (r: Option<usize>)
    ensures
        match r {
            Some(i) => find_field(
                fields@.map_values(|f: crate::value::Field| f@),
                path@,
            ) == Some(i as int),
            None => find_field(fields@.map_values(|f: crate::value::Field| f@), path@)
                == None::<int>,
        },
{
    let ghost fm = fields@.map_values(|f: crate::value::Field| f@);
    let mut i: usize = 0;
    while i < fields.len()
        invariant
            i <= fields.len(),
            fm == fields@.map_values(|f: crate::value::Field| f@),
            forall|j: int| 0 <= j < i ==> #[trigger] fm[j].path != path@,
        decreases fields.len() - i,
    {
        if crate::registry::bytes_eq(&fields[i].path, path) {
            proof {
                assert(fm[i as int].path == path@);
                lemma_find_field(fm, path@);
                match find_field(fm, path@) {
                    Some(k) => {
                        assert(!(k < i));
                        assert(!(k > i));
                    },
                    None => {
                        assert(fm[i as int].path == path@);
                    },
                }
            }
            return Some(i);
        }
        i += 1;
    }
    proof {
        lemma_find_field(fm, path@);
    }
    None
}

/// A patch's overrides applied in order onto an owned value; see
/// [`apply_overrides`].
fn apply_overrides_at(v: &Value, overrides: &Vec<crate::value::Field>) -> (r: Result<
    Value,
    Vec<u8>,
>)
    ensures
        match apply_overrides(v@, overrides@.map_values(|f: crate::value::Field| f@)) {
            Ok(m) => r matches Ok(v2) && v2@ == m,
            Err(p) => r matches Err(q) && q@ == p,
        },
{
    let ghost v0 = v@;
    let ghost ovm = overrides@.map_values(|f: crate::value::Field| f@);
    let mut cur = v.clone_value();
    let mut j: usize = 0;
    proof {
        assert(ovm.skip(0) =~= ovm);
    }
    while j < overrides.len()
        invariant
            j <= overrides.len(),
            v0 == v@,
            ovm == overrides@.map_values(|f: crate::value::Field| f@),
            apply_overrides(v0, ovm) == apply_overrides(cur@, ovm.skip(j as int)),
        decreases overrides.len() - j,
    {
        proof {
            assert(ovm.skip(j as int)[0] == ovm[j as int]);
            assert(ovm.skip(j as int).drop_first() =~= ovm.skip(j + 1));
        }
        match find_field_at(&cur.fields, &overrides[j].path) {
            None => {
                proof {
                    assert(set_field(cur@.fields, ovm[j as int].path, ovm[j as int].data)
                        is None);
                    assert(apply_overrides(cur@, ovm.skip(j as int)) == Err::<
                        ValueModel,
                        Seq<u8>,
                    >(ovm[j as int].path));
                    assert(overrides@[j as int].path@ == ovm[j as int].path);
                }
                return Err(overrides[j].path.clone());
            },
            Some(fi) => {
                proof {
                    lemma_find_field(cur@.fields, ovm[j as int].path);
                }
                let ghost before = cur@;
                let newf = crate::value::Field {
                    path: overrides[j].path.clone(),
                    data: overrides[j].data,
                };
                cur.fields[fi] = newf;
                proof {
                    let fm = FieldModel { path: ovm[j as int].path, data: ovm[j as int].data };
                    assert(cur@.fields =~= before.fields.update(fi as int, fm));
                    assert(set_field(before.fields, ovm[j as int].path, ovm[j as int].data)
                        matches Some(fs) && fs =~= cur@.fields);
                    assert(ValueModel { fields: cur@.fields, ..before } =~= cur@);
                }
            },
        }
        j += 1;
    }
    proof {
        assert(ovm.skip(ovm.len() as int) =~= Seq::<FieldModel>::empty());
    }
    Ok(cur)
}

/// Attach a value to a record's value list: applied over the value of the
/// same type name when one is present, appended otherwise; see
/// [`apply_or_insert`].
fn apply_or_insert_at(values: &mut Vec<Value>, v: Value)
    ensures
        values_view(final(values)@) == apply_or_insert(values_view(old(values)@), v@),
{
    let ghost vals0 = values_view(values@);
    let i = find_value_at(values, &v.name);
    proof {
        lemma_find_value(vals0, v@.name);
    }
    match i {
        Some(i) => {
            values[i] = v;
            proof {
                assert(values_view(values@) =~= vals0.update(
                    i as int,
                    values@[i as int]@,
                ));
            }
        },
        None => {
            values.push(v);
            proof {
                assert(values_view(values@) =~= vals0.push(values@.last()@));
            }
        },
    }
}

/// One entity's effective component list processed against a record's
/// current values; see [`process_components`]. On an error the values
/// already processed remain applied.
fn apply_components(
    values: &mut Vec<Value>,
    comps: &Vec<Value>,
    patch: Option<&PatchEntity>,
    registry: &crate::registry::TypeRegistry,
    rec: u64,
    touched: &mut Vec<(Vec<u8>, u64)>,
) -> (r: Result<(), crate::PrefabError>)
    ensures
        ({
            let (vals, t, err) = process_components(
                values_view(old(values)@),
                values_view(comps@),
                opt_patch_view(patch),
                registry@,
                rec,
                touched_view(old(touched)@),
            );
            &&& values_view(final(values)@) == vals
            &&& touched_view(final(touched)@) == t
            &&& match err {
                None => r is Ok,
                Some(es) => r matches Err(e) && e@ == es,
            }
        }),
{
    let ghost vals0 = values_view(values@);
    let ghost compsm = values_view(comps@);
    let ghost pm = opt_patch_view(patch);
    let ghost regm = registry@;
    let ghost t0 = touched_view(touched@);
    let mut j: usize = 0;
    proof {
        assert(compsm.skip(0) =~= compsm);
    }
    while j < comps.len()
        invariant
            j <= comps.len(),
            vals0 == values_view(old(values)@),
            t0 == touched_view(old(touched)@),
            compsm == values_view(comps@),
            pm == opt_patch_view(patch),
            regm == registry@,
            process_components(vals0, compsm, pm, regm, rec, t0) == process_components(
                values_view(values@),
                compsm.skip(j as int),
                pm,
                regm,
                rec,
                touched_view(touched@),
            ),
        decreases comps.len() - j,
    {
        let ghost vb = values_view(values@);
        let ghost tb = touched_view(touched@);
        let ghost c = compsm[j as int];
        proof {
            assert(compsm.skip(j as int)[0] == c);
            assert(compsm.skip(j as int).drop_first() =~= compsm.skip(j + 1));
            assert(c == comps@[j as int]@);
        }
        let removed = match patch {
            Some(pe) => removes_name(pe, &comps[j].name),
            None => false,
        };
        proof {
            assert(removed == (pm matches Some(p) && remove_contains(p, c.name)));
        }
        if !removed {
            let modify = match patch {
                Some(pe) => find_modify(pe, &comps[j].name),
                None => None,
            };
            let c2 = match modify {
                Some(m) => {
                    match apply_overrides_at(&comps[j], &m.overrides) {
                        Ok(v) => {
                            proof {
                                assert(spec_patched(c, pm) == Ok::<ValueModel, Seq<u8>>(v@));
                            }
                            v
                        },
                        Err(p) => {
                            proof {
                                assert(spec_patched(c, pm) == Err::<ValueModel, Seq<u8>>(p@));
                                assert(process_components(vb, compsm.skip(j as int), pm, regm, rec, tb)
                                    == (vb, tb, Some(ErrorModel::PatchContainsWrongPath { path: p@ })));
                            }
                            return Err(crate::PrefabError::PatchContainsWrongPath { path: p });
                        },
                    }
                },
                None => {
                    let v = comps[j].clone_value();
                    proof {
                        assert(spec_patched(c, pm) == Ok::<ValueModel, Seq<u8>>(v@));
                    }
                    v
                },
            };
            let ghost c2m = c2@;
            match registry.get_with_name(&comps[j].name) {
                None => {
                    proof {
                        assert(reg_get(regm, c.name) is None);
                        assert(process_components(vb, compsm.skip(j as int), pm, regm, rec, tb)
                            == (vb, tb, Some(ErrorModel::UnregisteredType { name: c.name })));
                    }
                    return Err(crate::PrefabError::UnregisteredType {
                        name: comps[j].name.clone(),
                    });
                },
                Some(reg) => {
                    proof {
                        assert(reg_get(regm, c.name) == Some(reg@));
                    }
                    if reg.custom_insert {
                        apply_or_insert_at(values, c2);
                        proof {
                            assert(process_components(vb, compsm.skip(j as int), pm, regm, rec, tb)
                                == process_components(
                                values_view(values@),
                                compsm.skip(j + 1),
                                pm,
                                regm,
                                rec,
                                touched_view(touched@),
                            ));
                        }
                    } else if !reg.reflect_component {
                        proof {
                            assert(process_components(vb, compsm.skip(j as int), pm, regm, rec, tb)
                                == (vb, tb, Some(ErrorModel::UnregisteredComponent { name: c.name })));
                        }
                        return Err(crate::PrefabError::UnregisteredComponent {
                            name: comps[j].name.clone(),
                        });
                    } else {
                        if reg.map_entities {
                            touched.push((comps[j].name.clone(), rec));
                            proof {
                                assert(touched_view(touched@) =~= tb.push((c.name, rec)));
                            }
                        }
                        apply_or_insert_at(values, c2);
                        proof {
                            assert(process_components(vb, compsm.skip(j as int), pm, regm, rec, tb)
                                == process_components(
                                values_view(values@),
                                compsm.skip(j + 1),
                                pm,
                                regm,
                                rec,
                                touched_view(touched@),
                            ));
                        }
                    }
                },
            }
        } else {
            proof {
                assert(process_components(vb, compsm.skip(j as int), pm, regm, rec, tb)
                    == process_components(vb, compsm.skip(j + 1), pm, regm, rec, tb));
            }
        }
        j += 1;
    }
    proof {
        assert(compsm.skip(compsm.len() as int) =~= Seq::<ValueModel>::empty());
    }
    Ok(())
}

/// The write state a world, a remap table and a touch list denote.
pub open spec fn st_of(w: crate::world::WorldModel, remap: Seq<(u32, u64)>, touched: Seq<(Seq<u8>, u64)>) -> WriteState {
    WriteState { records: w.records, next_id: w.next_id, remap, touched }
}

/// One entity written into the live collection; see [`write_entity`].
fn write_entity_at(
    world: &mut crate::world::World,
    entity_map: &mut crate::world::RemapTable,
    touched: &mut Vec<(Vec<u8>, u64)>,
    local: u32,
    comps: &Vec<Value>,
    patch: Option<&PatchEntity>,
) -> (r: Result<(), crate::PrefabError>)
    requires
        old(world).wf(),
        old(world).next_id < u64::MAX,
    ensures
        ({
            let stc = st_of(old(world)@, old(entity_map)@, touched_view(old(touched)@));
            let (st2, err) = write_entity(
                stc,
                local,
                values_view(comps@),
                opt_patch_view(patch),
                old(world)@.registry,
            );
            &&& st_of(final(world)@, final(entity_map)@, touched_view(final(touched)@)) == st2
            &&& final(world)@.registry == old(world)@.registry
            &&& final(world).wf()
            &&& final(world).next_id <= old(world).next_id + 1
            &&& match err {
                None => r is Ok,
                Some(es) => r matches Err(e) && e@ == es,
            }
        }),
{
    let ghost stc = st_of(world@, entity_map@, touched_view(touched@));
    // Resolve the local id through the remap table, creating the record on
    // first reference.
    let rid = match entity_map.get(local) {
        Some(id) => id,
        None => {
            let id = world.spawn_empty();
            entity_map.insert(local, id);
            proof {
                crate::world::lemma_find_record_push(
                    old(world)@.records,
                    crate::world::RecordModel { id, parent: None, values: Seq::empty() },
                    id,
                );
                assert(find_record(world@.records, id) is Some);
            }
            id
        },
    };
    proof {
        assert(st_resolve(stc, local) == (
            st_of(world@, entity_map@, touched_view(touched@)),
            rid,
        ));
    }
    let ghost st1 = st_of(world@, entity_map@, touched_view(touched@));
    // A remap entry may point at a record destroyed since; such an entity
    // is skipped, as the algorithm's function says.
    let idx = match world.index_of(rid) {
        Some(idx) => idx,
        None => {
            proof {
                let (st2, err) = write_entity(
                    stc,
                    local,
                    values_view(comps@),
                    opt_patch_view(patch),
                    old(world)@.registry,
                );
                assert(st_of(world@, entity_map@, touched_view(touched@)) =~= st2);
            }
            return Ok(());
        },
    };
    proof {
        lemma_find_record(world@.records, rid);
    }
    // Process the effective component list against the record's current
    // values, then store them; on an error the values already processed
    // stay, mirroring the no-rollback contract.
    let mut vals = clone_values(&world.records[idx].values);
    proof {
        assert(values_view(world.records@[idx as int].values@) == world@.records[idx as int].values);
    }
    let r = apply_components(&mut vals, comps, patch, &world.registry, rid, touched);
    let ghost mid_records = world@.records;
    world.set_values(idx, vals);
    proof {
        let new_rec = world@.records[idx as int];
        assert(world@.records == mid_records.update(idx as int, new_rec));
        assert(mid_records[idx as int].id == new_rec.id);
        let (st2, err) = write_entity(
            stc,
            local,
            values_view(comps@),
            opt_patch_view(patch),
            old(world)@.registry,
        );
        assert(st_of(world@, entity_map@, touched_view(touched@)) =~= st2);
    }
    r
}

/// An owned copy of the value with every entity reference redirected
/// through the remap table; see [`rewrite_value`].
fn rewrite_value_at(v: &Value, remap: &crate::world::RemapTable) -> (r: Value)
    ensures
        r@ == rewrite_value(v@, remap@),
{
    let mut fields: Vec<crate::value::Field> = Vec::new();
    let mut i: usize = 0;
    while i < v.fields.len()
        invariant
            i <= v.fields.len(),
            fields@.len() == i,
            forall|j: int|
                0 <= j < i ==> #[trigger] fields@[j]@ == (FieldModel {
                    path: v@.fields[j].path,
                    data: rewrite_data(v@.fields[j].data, remap@),
                }),
        decreases v.fields.len() - i,
    {
        let data = match v.fields[i].data {
            FieldData::Int(n) => FieldData::Int(n),
            FieldData::EntityRef(e) => {
                if e <= u32::MAX as u64 {
                    match remap.get(e as u32) {
                        Some(id) => FieldData::EntityRef(id),
                        None => FieldData::EntityRef(e),
                    }
                } else {
                    FieldData::EntityRef(e)
                }
            },
        };
        fields.push(crate::value::Field { path: v.fields[i].path.clone(), data });
        i += 1;
    }
    let r = Value { name: v.name.clone(), fields };
    proof {
        assert(r@.fields =~= rewrite_value(v@, remap@).fields);
        assert(r@ =~= rewrite_value(v@, remap@));
    }
    r
}

/// Whether no later `modify` entry carries the same id as entry `i`.
fn is_last_at(modify: &Vec<PatchEntity>, i: usize) -> (r: bool)
    requires
        i < modify@.len(),
    ensures
        r == is_last_for_id(modify@.map_values(|e: PatchEntity| e@), i as int),
{
    let ghost mm = modify@.map_values(|e: PatchEntity| e@);
    let n = modify.len();
    let mut j: usize = i + 1;
    while j < modify.len()
        invariant
            i < j <= modify.len(),
            mm == modify@.map_values(|e: PatchEntity| e@),
            forall|k: int| i < k < j ==> mm[k].entity != mm[i as int].entity,
        decreases modify.len() - j,
    {
        if modify[j].entity == modify[i].entity {
            assert(mm[j as int].entity == mm[i as int].entity);
            return false;
        }
        j += 1;
    }
    true
}

/// Whether some prefab entity carries the given snapshot-local id.
fn prefab_has_at(prefab: &Prefab, id: u32) -> (r: bool)
    ensures
        r == prefab_has_entity(prefab@, id),
{
    let mut i: usize = 0;
    while i < prefab.entities.len()
        invariant
            i <= prefab.entities.len(),
            forall|j: int| 0 <= j < i ==> #[trigger] prefab@[j].entity != id,
        decreases prefab.entities.len() - i,
    {
        if prefab.entities[i].entity == id {
            assert(prefab@[i as int].entity == id);
            return true;
        }
        i += 1;
    }
    false
}

/// Write a prefab, merged with a patch, into the live collection.
///
/// Creates or updates records through `entity_map`: a snapshot-local id
/// already mapped targets its existing record (hot-updates mutate in
/// place), an unmapped one gets a fresh record. Honors the patch's
/// `ignore`, `append`, `modify` and `remove` sets, writes patch entities
/// with no snapshot counterpart, and finishes with the reference-rewrite
/// pass. On an error, records already written stay written — callers
/// needing atomicity must snapshot the collection themselves.
///
/// The result and the new states of `world` and `entity_map` are exactly
/// what [`write_spec`] says; `Ok` is returned if and only if that function
/// reports no error.
pub fn write_to_world(
    patch: &Patch,
    prefab: &Prefab,
    world: &mut crate::world::World,
    entity_map: &mut crate::world::RemapTable,
) -> (r: Result<(), crate::PrefabError>)
    requires
        old(world).wf(),
        old(world).next_id + prefab@.len() + patch@.modify.len() <= u64::MAX,
    ensures
        ({
            let st0 = st_of(old(world)@, old(entity_map)@, Seq::empty());
            let (st, err) = write_spec(patch@, prefab@, old(world)@.registry, st0);
            &&& final(world)@.records == st.records
            &&& final(world).next_id == st.next_id
            &&& final(entity_map)@ == st.remap
            &&& final(world)@.registry == old(world)@.registry
            &&& final(world).wf()
            &&& match err {
                None => r is Ok,
                Some(es) => r matches Err(e) && e@ == es,
            }
        }),
{
    let ghost st0 = st_of(old(world)@, old(entity_map)@, Seq::empty());
    let ghost regm = old(world)@.registry;
    let ghost pm = patch@;
    let ghost em = prefab@;
    let mut touched: Vec<(Vec<u8>, u64)> = Vec::new();
    proof {
        assert(touched_view(touched@) =~= Seq::<(Seq<u8>, u64)>::empty());
        assert(em.skip(0) =~= em);
        assert(st_of(world@, entity_map@, touched_view(touched@)) =~= st0);
    }
    // The snapshot pass: every prefab entity in order, skipping ignored
    // ids.
    let mut i: usize = 0;
    while i < prefab.entities.len()
        invariant
            i <= prefab.entities.len(),
            st0 == st_of(old(world)@, old(entity_map)@, Seq::empty()),
            regm == old(world)@.registry,
            pm == patch@,
            em == prefab@,
            world@.registry == regm,
            world.wf(),
            world.next_id <= old(world).next_id + i,
            old(world).next_id + prefab@.len() + patch@.modify.len() <= u64::MAX,
            write_pass_snapshot(st0, pm, em, regm) == write_pass_snapshot(
                st_of(world@, entity_map@, touched_view(touched@)),
                pm,
                em.skip(i as int),
                regm,
            ),
        decreases prefab.entities.len() - i,
    {
        let ghost stc = st_of(world@, entity_map@, touched_view(touched@));
        proof {
            assert(em.skip(i as int)[0] == em[i as int]);
            assert(em.skip(i as int).drop_first() =~= em.skip(i + 1));
            assert(em[i as int] == prefab.entities@[i as int]@);
        }
        let se_entity = prefab.entities[i].entity;
        if !ignore_has(patch, se_entity) {
            let pe = find_patch_entity(patch, se_entity);
            // The effective component list: snapshot values, then the
            // matching patch's appended values.
            let mut comps = clone_values(&prefab.entities[i].components);
            if let Some(p) = pe {
                let mut ap = clone_values(&p.append);
                comps.append(&mut ap);
            }
            proof {
                assert(values_view(comps@) =~= effective_components(
                    em[i as int],
                    lookup_patch(pm.modify, se_entity),
                ));
            }
            let r = write_entity_at(world, entity_map, &mut touched, se_entity, &comps, pe);
            if let Err(e) = r {
                proof {
                    let (st1, err) = write_entity(
                        stc,
                        se_entity,
                        values_view(comps@),
                        opt_patch_view(pe),
                        regm,
                    );
                    assert(write_pass_snapshot(stc, pm, em.skip(i as int), regm) == (st1, err));
                    assert(write_spec(pm, em, regm, st0) == (st1, err));
                }
                return Err(e);
            }
            proof {
                assert(write_pass_snapshot(stc, pm, em.skip(i as int), regm)
                    == write_pass_snapshot(
                    st_of(world@, entity_map@, touched_view(touched@)),
                    pm,
                    em.skip(i + 1),
                    regm,
                ));
            }
        } else {
            proof {
                assert(write_pass_snapshot(stc, pm, em.skip(i as int), regm)
                    == write_pass_snapshot(stc, pm, em.skip(i + 1), regm));
            }
        }
        i += 1;
    }
    proof {
        assert(em.skip(em.len() as int) =~= Seq::<PrefabEntityModel>::empty());
    }
    let ghost st1g = st_of(world@, entity_map@, touched_view(touched@));
    proof {
        assert(write_pass_snapshot(st0, pm, em, regm) == (st1g, None::<ErrorModel>));
    }
    // The patch pass: every patch entity with no snapshot counterpart.
    let mut k: usize = 0;
    while k < patch.modify.len()
        invariant
            k <= patch.modify.len(),
            st0 == st_of(old(world)@, old(entity_map)@, Seq::empty()),
            regm == old(world)@.registry,
            pm == patch@,
            em == prefab@,
            world@.registry == regm,
            world.wf(),
            world.next_id <= old(world).next_id + prefab@.len() + k,
            old(world).next_id + prefab@.len() + patch@.modify.len() <= u64::MAX,
            write_pass_snapshot(st0, pm, em, regm) == (st1g, None::<ErrorModel>),
            write_pass_patch(st1g, pm, em, regm, 0) == write_pass_patch(
                st_of(world@, entity_map@, touched_view(touched@)),
                pm,
                em,
                regm,
                k as int,
            ),
        decreases patch.modify.len() - k,
    {
        let ghost stc = st_of(world@, entity_map@, touched_view(touched@));
        proof {
            assert(pm.modify[k as int] == patch.modify@[k as int]@);
        }
        let pe_entity = patch.modify[k].entity;
        let processes = is_last_at(&patch.modify, k) && !ignore_has(patch, pe_entity)
            && !prefab_has_at(prefab, pe_entity);
        if processes {
            let comps = clone_values(&patch.modify[k].append);
            let r = write_entity_at(world, entity_map, &mut touched, pe_entity, &comps, None);
            if let Err(e) = r {
                proof {
                    let (st2, err) = write_entity(
                        stc,
                        pe_entity,
                        values_view(comps@),
                        None::<PatchEntityModel>,
                        regm,
                    );
                    assert(write_pass_patch(stc, pm, em, regm, k as int) == (st2, err));
                    assert(write_spec(pm, em, regm, st0) == (st2, err));
                }
                return Err(e);
            }
            proof {
                assert(write_pass_patch(stc, pm, em, regm, k as int) == write_pass_patch(
                    st_of(world@, entity_map@, touched_view(touched@)),
                    pm,
                    em,
                    regm,
                    k + 1,
                ));
            }
        } else {
            proof {
                assert(!patch_pass_processes(pm, em, k as int));
                assert(write_pass_patch(stc, pm, em, regm, k as int) == write_pass_patch(
                    stc,
                    pm,
                    em,
                    regm,
                    k + 1,
                ));
            }
        }
        k += 1;
    }
    let ghost st2g = st_of(world@, entity_map@, touched_view(touched@));
    proof {
        assert(write_pass_patch(st1g, pm, em, regm, 0) == (st2g, None::<ErrorModel>));
    }
    // The rewrite pass: every touched (type name, record) pair, against
    // the final remap table, so forward references resolve.
    let mut t: usize = 0;
    proof {
        assert(st2g.touched.skip(0) =~= st2g.touched);
    }
    while t < touched.len()
        invariant
            t <= touched.len(),
            st0 == st_of(old(world)@, old(entity_map)@, Seq::empty()),
            regm == old(world)@.registry,
            pm == patch@,
            em == prefab@,
            world@.registry == regm,
            world.wf(),
            write_pass_snapshot(st0, pm, em, regm) == (st1g, None::<ErrorModel>),
            write_pass_patch(st1g, pm, em, regm, 0) == (st2g, None::<ErrorModel>),
            st2g.touched == touched_view(touched@),
            st2g.remap == entity_map@,
            st2g.next_id == world.next_id,
            write_pass_rewrite(st2g.records, st2g.touched, st2g.remap) == write_pass_rewrite(
                world@.records,
                st2g.touched.skip(t as int),
                st2g.remap,
            ),
        decreases touched.len() - t,
    {
        let ghost recs_before = world@.records;
        proof {
            assert(st2g.touched.skip(t as int)[0] == st2g.touched[t as int]);
            assert(st2g.touched.skip(t as int).drop_first() =~= st2g.touched.skip(t + 1));
            assert(st2g.touched[t as int] == (touched@[t as int].0@, touched@[t as int].1));
        }
        let rid = touched[t].1;
        match world.index_of(rid) {
            None => {
                proof {
                    assert(rewrite_record(
                        recs_before,
                        st2g.touched[t as int].1,
                        st2g.touched[t as int].0,
                        st2g.remap,
                    ) == recs_before);
                }
            },
            Some(idx) => {
                proof {
                    lemma_find_record(world@.records, rid);
                }
                match find_value_at(&world.records[idx].values, &touched[t].0) {
                    None => {
                        proof {
                            assert(values_view(world.records@[idx as int].values@)
                                == world@.records[idx as int].values);
                            assert(rewrite_record(
                                recs_before,
                                st2g.touched[t as int].1,
                                st2g.touched[t as int].0,
                                st2g.remap,
                            ) == recs_before);
                        }
                    },
                    Some(vj) => {
                        proof {
                            assert(values_view(world.records@[idx as int].values@)
                                == world@.records[idx as int].values);
                            lemma_find_value(
                                world@.records[idx as int].values,
                                st2g.touched[t as int].0,
                            );
                        }
                        let newv = rewrite_value_at(&world.records[idx].values[vj], entity_map);
                        let mut vals = clone_values(&world.records[idx].values);
                        vals[vj] = newv;
                        let ghost mid_records = world@.records;
                        world.set_values(idx, vals);
                        proof {
                            assert(values_view(vals@) =~= mid_records[idx as int].values.update(
                                vj as int,
                                rewrite_value(
                                    mid_records[idx as int].values[vj as int],
                                    st2g.remap,
                                ),
                            ));
                            assert(world@.records =~= rewrite_record(
                                recs_before,
                                st2g.touched[t as int].1,
                                st2g.touched[t as int].0,
                                st2g.remap,
                            ));
                        }
                    },
                }
            },
        }
        t += 1;
    }
    proof {
        assert(st2g.touched.skip(st2g.touched.len() as int) =~= Seq::<(Seq<u8>, u64)>::empty());
        let (st, err) = write_spec(pm, em, regm, st0);
        assert(st.records == world@.records);
        assert(st.next_id == world.next_id);
        assert(st.remap == entity_map@);
        assert(err is None);
    }
    Ok(())
}

} // verus!
