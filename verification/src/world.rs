//! The live collection model: records with a stable identity, an optional
//! parent relationship and attached component values, allocated from a
//! monotone id counter; and the per-instance remap table from snapshot-local
//! ids to live record ids.
use crate::registry::{RegistrationModel, TypeRegistry};
use crate::value::{Value, ValueModel};
use vstd::prelude::*;

verus! {

/// One live record: an identity, an optional parent record and the attached
/// component values.
pub struct Record {
    pub id: u64,
    pub parent: Option<u64>,
    pub values: Vec<Value>,
}

/// Mathematical model of a [`Record`].
#[verifier::ext_equal]
pub ghost struct RecordModel {
    pub id: u64,
    pub parent: Option<u64>,
    pub values: Seq<ValueModel>,
}

impl View for Record {
    type V = RecordModel;

    open spec fn view(&self) -> RecordModel {
        RecordModel {
            id: self.id,
            parent: self.parent,
            values: self.values@.map_values(|v: Value| v@),
        }
    }
}

/// The live collection: every record, the next identity to allocate, and
/// the type registry the collection was set up with.
pub struct World {
    pub records: Vec<Record>,
    pub next_id: u64,
    pub registry: TypeRegistry,
}

/// Mathematical model of a [`World`].
#[verifier::ext_equal]
pub ghost struct WorldModel {
    pub records: Seq<RecordModel>,
    pub next_id: u64,
    pub registry: Seq<RegistrationModel>,
}

impl View for World {
    type V = WorldModel;

    open spec fn view(&self) -> WorldModel {
        WorldModel {
            records: self.records@.map_values(|r: Record| r@),
            next_id: self.next_id,
            registry: self.registry@,
        }
    }
}

/// The position of the record with the given id, if present.
pub open spec fn find_record(records: Seq<RecordModel>, id: u64) -> Option<int>
    decreases records.len(),
{
    if records.len() == 0 {
        None
    } else if records[0].id == id {
        Some(0int)
    } else {
        match find_record(records.drop_first(), id) {
            Some(i) => Some(i + 1),
            None => None,
        }
    }
}

/// What [`find_record`] returns: the first position holding `id`, or `None`
/// when no record does.
pub proof fn lemma_find_record(records: Seq<RecordModel>, id: u64)
    ensures
        match find_record(records, id) {
            Some(i) => 0 <= i < records.len() && records[i].id == id && forall|j: int|
                0 <= j < i ==> records[j].id != id,
            None => forall|j: int| 0 <= j < records.len() ==> records[j].id != id,
        },
    decreases records.len(),
{
    if records.len() > 0 && records[0].id != id {
        lemma_find_record(records.drop_first(), id);
        assert forall|j: int| 1 <= j < records.len() implies records.drop_first()[j - 1]
            == records[j] by {}
    }
}

/// Appending a record only affects lookups of ids not yet present.
pub proof fn lemma_find_record_push(records: Seq<RecordModel>, r: RecordModel, id: u64)
    ensures
        find_record(records.push(r), id) == match find_record(records, id) {
            Some(i) => Some(i),
            None => if r.id == id {
                Some(records.len() as int)
            } else {
                None
            },
        },
    decreases records.len(),
{
    if records.len() == 0 {
        reveal_with_fuel(find_record, 3);
        assert(records.push(r)[0] == r);
        assert(records.push(r).drop_first() =~= Seq::<RecordModel>::empty());
    } else {
        assert(records.push(r)[0] == records[0]);
        if records[0].id != id {
            assert(records.push(r).drop_first() =~= records.drop_first().push(r));
            lemma_find_record_push(records.drop_first(), r, id);
        }
    }
}

/// Updating a record in place without changing its id leaves every lookup
/// unchanged.
pub proof fn lemma_find_record_update(records: Seq<RecordModel>, i: int, r: RecordModel, id: u64)
    requires
        0 <= i < records.len(),
        records[i].id == r.id,
    ensures
        find_record(records.update(i, r), id) == find_record(records, id),
    decreases records.len(),
{
    assert(records.update(i, r).len() == records.len());
    if records.len() > 0 {
        if i == 0 {
            assert(records.update(i, r)[0] == r);
            if records[0].id != id {
                assert(records.update(i, r).drop_first() =~= records.drop_first());
            }
        } else {
            assert(records.update(i, r)[0] == records[0]);
            if records[0].id != id {
                assert(records.update(i, r).drop_first() =~= records.drop_first().update(
                    i - 1,
                    r,
                ));
                lemma_find_record_update(records.drop_first(), i - 1, r, id);
            }
        }
    }
}

/// Well-formedness of a live collection: identities are unique and below the
/// allocation counter.
pub open spec fn world_wf(w: WorldModel) -> bool {
    &&& forall|i: int| 0 <= i < w.records.len() ==> #[trigger] w.records[i].id < w.next_id
    &&& forall|i: int, j: int|
        0 <= i < w.records.len() && 0 <= j < w.records.len() && i != j
            ==> w.records[i].id != w.records[j].id
}

impl World {
    /// Well-formedness: see [`world_wf`].
    pub open spec fn wf(&self) -> bool {
        world_wf(self@)
    }

    /// An empty collection over the given registry.
    pub fn new(registry: TypeRegistry) -> (r: World)
        ensures
            r@.records == Seq::<RecordModel>::empty(),
            r@.next_id == 0,
            r@.registry == registry@,
            r.wf(),
    {
        let r = World { records: Vec::new(), next_id: 0, registry };
        proof {
            assert(r@.records =~= Seq::<RecordModel>::empty());
        }
        r
    }

    /// Create a fresh, empty record and return its identity.
    pub fn spawn_empty(&mut self) -> (id: u64)
        requires
            old(self).next_id < u64::MAX,
        ensures
            id == old(self).next_id,
            final(self)@.records == old(self)@.records.push(
                RecordModel { id, parent: None, values: Seq::empty() },
            ),
            final(self).next_id == old(self).next_id + 1,
            final(self)@.registry == old(self)@.registry,
            old(self).wf() ==> final(self).wf(),
    {
        let id = self.next_id;
        self.records.push(Record { id, parent: None, values: Vec::new() });
        self.next_id = self.next_id + 1;
        proof {
            let rm = RecordModel { id, parent: None, values: Seq::empty() };
            assert(self.records@.last()@ =~= rm);
            assert(self@.records =~= old(self)@.records.push(rm));
        }
        id
    }

    /// The position of the record with the given id.
    pub fn index_of(&self, id: u64) -> (r: Option<usize>)
        ensures
            match r {
                Some(i) => find_record(self@.records, id) == Some(i as int),
                None => find_record(self@.records, id) == None::<int>,
            },
    {
        let mut i: usize = 0;
        while i < self.records.len()
            invariant
                i <= self.records.len(),
                forall|j: int| 0 <= j < i ==> #[trigger] self@.records[j].id != id,
            decreases self.records.len() - i,
        {
            if self.records[i].id == id {
                proof {
                    lemma_find_record(self@.records, id);
                    match find_record(self@.records, id) {
                        Some(k) => {
                            assert(!(k < i));
                            assert(!(k > i));
                        },
                        None => {
                            assert(self@.records[i as int].id == id);
                        },
                    }
                }
                return Some(i);
            }
            i += 1;
        }
        proof {
            lemma_find_record(self@.records, id);
        }
        None
    }

    /// Whether a record with the given id exists.
    pub fn contains(&self, id: u64) -> (r: bool)
        ensures
            r == (find_record(self@.records, id) is Some),
    {
        self.index_of(id).is_some()
    }

    /// Destroy the record with the given id; reports whether one existed.
    pub fn despawn(&mut self, id: u64) -> (r: bool)
        ensures
            match find_record(old(self)@.records, id) {
                Some(i) => r && final(self)@.records == old(self)@.records.remove(i),
                None => !r && final(self)@.records == old(self)@.records,
            },
            final(self).next_id == old(self).next_id,
            final(self)@.registry == old(self)@.registry,
            old(self).wf() ==> final(self).wf(),
    {
        proof {
            lemma_find_record(old(self)@.records, id);
        }
        match self.index_of(id) {
            Some(i) => {
                self.records.remove(i);
                proof {
                    assert(self@.records =~= old(self)@.records.remove(i as int));
                }
                true
            },
            None => false,
        }
    }

    /// Whether the record with the given id is attached to a parent.
    pub fn has_parent(&self, id: u64) -> (r: bool)
        requires
            find_record(self@.records, id) is Some,
        ensures
            r == (self@.records[find_record(self@.records, id).unwrap()].parent is Some),
    {
        proof {
            lemma_find_record(self@.records, id);
        }
        let i = self.index_of(id).unwrap();
        self.records[i].parent.is_some()
    }

    /// Replace the values of the record at position `i`.
    pub fn set_values(&mut self, i: usize, values: Vec<Value>)
        requires
            i < old(self)@.records.len(),
        ensures
            final(self)@.records == old(self)@.records.update(
                i as int,
                RecordModel {
                    values: values@.map_values(|v: Value| v@),
                    ..old(self)@.records[i as int]
                },
            ),
            final(self).next_id == old(self).next_id,
            final(self)@.registry == old(self)@.registry,
            old(self).wf() ==> final(self).wf(),
    {
        let ghost old_rec = self@.records[i as int];
        let mut rec = self.records.remove(i);
        rec.values = values;
        self.records.insert(i, rec);
        proof {
            let vm = values@.map_values(|v: Value| v@);
            assert(self@.records[i as int] =~= RecordModel { values: vm, ..old_rec });
            assert(self@.records =~= old(self)@.records.update(
                i as int,
                RecordModel { values: vm, ..old_rec },
            ));
        }
    }

    /// Attach the record `child` to the record `parent`.
    pub fn attach_parent(&mut self, parent: u64, child: u64)
        requires
            find_record(old(self)@.records, child) is Some,
        ensures
            ({
                let i = find_record(old(self)@.records, child).unwrap();
                let old_rec = old(self)@.records[i];
                final(self)@.records == old(self)@.records.update(
                    i,
                    RecordModel { parent: Some(parent), ..old_rec },
                )
            }),
            final(self).next_id == old(self).next_id,
            final(self)@.registry == old(self)@.registry,
            old(self).wf() ==> final(self).wf(),
    {
        proof {
            lemma_find_record(old(self)@.records, child);
        }
        let i = self.index_of(child).unwrap();
        let ghost old_rec = self@.records[i as int];
        let mut rec = self.records.remove(i);
        rec.parent = Some(parent);
        self.records.insert(i, rec);
        proof {
            assert(self@.records[i as int] =~= RecordModel { parent: Some(parent), ..old_rec });
            assert(self@.records =~= old(self)@.records.update(
                i as int,
                RecordModel { parent: Some(parent), ..old_rec },
            ));
        }
    }
}

/// The live id a remap table sends a snapshot-local id to: the first entry
/// carrying that key, if any.
pub open spec fn remap_get(entries: Seq<(u32, u64)>, key: u32) -> Option<u64>
    decreases entries.len(),
{
    if entries.len() == 0 {
        None
    } else if entries[0].0 == key {
        Some(entries[0].1)
    } else {
        remap_get(entries.drop_first(), key)
    }
}

/// What [`remap_get`] returns: the value of the first entry holding `key`,
/// or `None` when no entry does.
pub proof fn lemma_remap_get(entries: Seq<(u32, u64)>, key: u32)
    ensures
        match remap_get(entries, key) {
            Some(v) => exists|i: int|
                0 <= i < entries.len() && entries[i] == (key, v) && forall|j: int|
                    0 <= j < i ==> (#[trigger] entries[j]).0 != key,
            None => forall|j: int| 0 <= j < entries.len() ==> (#[trigger] entries[j]).0 != key,
        },
    decreases entries.len(),
{
    if entries.len() > 0 && entries[0].0 != key {
        lemma_remap_get(entries.drop_first(), key);
        if remap_get(entries, key) is Some {
            let v = remap_get(entries, key).unwrap();
            let i = choose|i: int|
                0 <= i < entries.drop_first().len() && entries.drop_first()[i] == (key, v)
                    && forall|j: int| 0 <= j < i ==> (#[trigger] entries.drop_first()[j]).0 != key;
            assert(entries[i + 1] == (key, v));
            assert forall|j: int| 0 <= j < i + 1 implies (#[trigger] entries[j]).0 != key by {
                if j > 0 {
                    assert(entries[j] == entries.drop_first()[j - 1]);
                }
            }
        } else {
            assert forall|j: int| 0 <= j < entries.len() implies (#[trigger] entries[j]).0
                != key by {
                if j > 0 {
                    assert(entries[j] == entries.drop_first()[j - 1]);
                }
            }
        }
    }
}

/// Appending an entry only affects lookups of keys not yet present.
pub proof fn lemma_remap_get_push(entries: Seq<(u32, u64)>, e: (u32, u64), key: u32)
    ensures
        remap_get(entries.push(e), key) == match remap_get(entries, key) {
            Some(v) => Some(v),
            None => if e.0 == key {
                Some(e.1)
            } else {
                None
            },
        },
    decreases entries.len(),
{
    if entries.len() == 0 {
        reveal_with_fuel(remap_get, 3);
        assert(entries.push(e)[0] == e);
        assert(entries.push(e).drop_first() =~= Seq::<(u32, u64)>::empty());
    } else {
        assert(entries.push(e)[0] == entries[0]);
        if entries[0].0 == key {
            assert(remap_get(entries, key) == Some(entries[0].1));
            assert(remap_get(entries.push(e), key) == Some(entries[0].1));
        } else {
            assert(entries.push(e).drop_first() =~= entries.drop_first().push(e));
            lemma_remap_get_push(entries.drop_first(), e, key);
            assert(remap_get(entries.push(e), key) == remap_get(
                entries.drop_first().push(e),
                key,
            ));
            assert(remap_get(entries, key) == remap_get(entries.drop_first(), key));
        }
    }
}

/// A per-instance mapping from snapshot-local ids to live record ids, in
/// insertion order. Lookups take the first entry with the key; insertions
/// never touch existing entries, so growth is append-only.
pub struct RemapTable {
    pub entries: Vec<(u32, u64)>,
}

impl View for RemapTable {
    type V = Seq<(u32, u64)>;

    open spec fn view(&self) -> Seq<(u32, u64)> {
        self.entries@
    }
}

impl RemapTable {
    /// The map this table denotes.
    pub open spec fn as_map(&self) -> Map<u32, u64> {
        Map::new(|k: u32| remap_get(self@, k) is Some, |k: u32| remap_get(self@, k).unwrap())
    }

    /// An empty table.
    pub fn new() -> (r: RemapTable)
        ensures
            r@ == Seq::<(u32, u64)>::empty(),
    {
        RemapTable { entries: Vec::new() }
    }

    /// The live id this table sends `key` to, if any.
    pub fn get(&self, key: u32) -> (r: Option<u64>)
        ensures
            r == remap_get(self@, key),
    {
        let mut i: usize = 0;
        proof {
            assert(self@.skip(0) =~= self@);
        }
        while i < self.entries.len()
            invariant
                i <= self.entries.len(),
                remap_get(self@, key) == remap_get(self@.skip(i as int), key),
            decreases self.entries.len() - i,
        {
            if self.entries[i].0 == key {
                proof {
                    assert(self@.skip(i as int)[0] == self@[i as int]);
                    reveal_with_fuel(remap_get, 2);
                }
                return Some(self.entries[i].1);
            }
            proof {
                assert(self@.skip(i as int)[0] == self@[i as int]);
                assert(self@.skip(i as int).drop_first() =~= self@.skip(i + 1));
                reveal_with_fuel(remap_get, 2);
            }
            i += 1;
        }
        proof {
            assert(self@.skip(self@.len() as int) =~= Seq::<(u32, u64)>::empty());
        }
        None
    }

    /// Record that `key` maps to `value`. Meaningful only for keys not yet
    /// present: an existing entry keeps priority on lookup.
    pub fn insert(&mut self, key: u32, value: u64)
        ensures
            final(self)@ == old(self)@.push((key, value)),
    {
        self.entries.push((key, value));
    }

    /// How many ids are mapped.
    pub fn len(&self) -> (r: usize)
        ensures
            r == self@.len(),
    {
        self.entries.len()
    }

    /// The live ids this table maps to, in insertion order.
    pub fn live_ids(&self) -> (r: Vec<u64>)
        ensures
            r@ == self@.map_values(|e: (u32, u64)| e.1),
    {
        let mut r: Vec<u64> = Vec::new();
        let mut i: usize = 0;
        while i < self.entries.len()
            invariant
                i <= self.entries.len(),
                r@.len() == i,
                forall|j: int| 0 <= j < i ==> #[trigger] r@[j] == self@[j].1,
            decreases self.entries.len() - i,
        {
            r.push(self.entries[i].1);
            i += 1;
        }
        proof {
            assert(r@ =~= self@.map_values(|e: (u32, u64)| e.1));
        }
        r
    }
}

} // verus!
