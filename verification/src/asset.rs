//! The snapshot data model: a `Prefab` is a serializable capture of a set of
//! entities and their component values, keyed by snapshot-local ids; a
//! `Patch` is a set of per-entity overrides applied on top of a prefab when
//! it is written into the live collection. Also the model of the asset
//! store prefabs are loaded into, and of its change notifications.
use crate::value::{FieldModel, Value, ValueModel};
use vstd::prelude::*;

verus! {

/// One captured entity: its snapshot-local id and its component values.
/// The local id is a transient key, unique only within one prefab.
pub struct PrefabEntity {
    pub entity: u32,
    pub components: Vec<Value>,
}

/// Mathematical model of a [`PrefabEntity`].
#[verifier::ext_equal]
pub ghost struct PrefabEntityModel {
    pub entity: u32,
    pub components: Seq<ValueModel>,
}

impl View for PrefabEntity {
    type V = PrefabEntityModel;

    open spec fn view(&self) -> PrefabEntityModel {
        PrefabEntityModel {
            entity: self.entity,
            components: self.components@.map_values(|v: Value| v@),
        }
    }
}

/// A serializable capture of entities and their values. Immutable once
/// built or decoded; shared read-only across simultaneous instantiations.
pub struct Prefab {
    pub entities: Vec<PrefabEntity>,
}

impl View for Prefab {
    type V = Seq<PrefabEntityModel>;

    open spec fn view(&self) -> Seq<PrefabEntityModel> {
        self.entities@.map_values(|e: PrefabEntity| e@)
    }
}

/// The overrides a patch holds for one type name on one entity: each entry
/// names a field path and the datum written over the field at that path.
pub struct ModifyComponent {
    pub name: Vec<u8>,
    pub overrides: Vec<crate::value::Field>,
}

/// Mathematical model of a [`ModifyComponent`].
#[verifier::ext_equal]
pub ghost struct ModifyComponentModel {
    pub name: Seq<u8>,
    pub overrides: Seq<FieldModel>,
}

impl View for ModifyComponent {
    type V = ModifyComponentModel;

    open spec fn view(&self) -> ModifyComponentModel {
        ModifyComponentModel {
            name: self.name@,
            overrides: self.overrides@.map_values(|f: crate::value::Field| f@),
        }
    }
}

/// The per-entity part of a patch: values to append after the snapshot's
/// own, field overrides per type name, and type names to remove. Removal
/// wins over modification for the same type name.
pub struct PatchEntity {
    pub entity: u32,
    pub append: Vec<Value>,
    pub modify: Vec<ModifyComponent>,
    pub remove: Vec<Vec<u8>>,
}

/// Mathematical model of a [`PatchEntity`].
#[verifier::ext_equal]
pub ghost struct PatchEntityModel {
    pub entity: u32,
    pub append: Seq<ValueModel>,
    pub modify: Seq<ModifyComponentModel>,
    pub remove: Seq<Seq<u8>>,
}

impl View for PatchEntity {
    type V = PatchEntityModel;

    open spec fn view(&self) -> PatchEntityModel {
        PatchEntityModel {
            entity: self.entity,
            append: self.append@.map_values(|v: Value| v@),
            modify: self.modify@.map_values(|m: ModifyComponent| m@),
            remove: self.remove@.map_values(|n: Vec<u8>| n@),
        }
    }
}

/// A set of per-entity overrides plus an ignore set, applied on top of a
/// prefab at write time. The empty patch instantiates a prefab verbatim.
/// `path` only names the patch for diagnostics.
pub struct Patch {
    pub path: Vec<u8>,
    pub modify: Vec<PatchEntity>,
    pub ignore: Vec<u32>,
}

/// Mathematical model of a [`Patch`].
#[verifier::ext_equal]
pub ghost struct PatchModel {
    pub path: Seq<u8>,
    pub modify: Seq<PatchEntityModel>,
    pub ignore: Seq<u32>,
}

impl View for Patch {
    type V = PatchModel;

    open spec fn view(&self) -> PatchModel {
        PatchModel {
            path: self.path@,
            modify: self.modify@.map_values(|e: PatchEntity| e@),
            ignore: self.ignore@,
        }
    }
}

impl Default for Patch {
    /// The empty patch: no overrides, nothing ignored.
    fn default() -> (r: Patch)
        ensures
            r@.modify == Seq::<PatchEntityModel>::empty(),
            r@.ignore == Seq::<u32>::empty(),
            r@.path == Seq::<u8>::empty(),
    {
        let r = Patch { path: Vec::new(), modify: Vec::new(), ignore: Vec::new() };
        proof {
            assert(r@.modify =~= Seq::<PatchEntityModel>::empty());
        }
        r
    }
}

/// Whether the patch ignores the given snapshot-local id.
pub open spec fn ignore_contains(patch: PatchModel, id: u32) -> bool {
    exists|i: int| 0 <= i < patch.ignore.len() && patch.ignore[i] == id
}

/// The patch entity that applies to the given snapshot-local id: the last
/// entry in `modify` carrying that id, as when the entries are indexed into
/// a map with later entries overwriting earlier ones.
pub open spec fn lookup_patch(modify: Seq<PatchEntityModel>, id: u32) -> Option<PatchEntityModel>
    decreases modify.len(),
{
    if modify.len() == 0 {
        None
    } else if modify.last().entity == id {
        Some(modify.last())
    } else {
        lookup_patch(modify.drop_last(), id)
    }
}

/// Whether the patch entity removes the given type name.
pub open spec fn remove_contains(p: PatchEntityModel, name: Seq<u8>) -> bool {
    exists|i: int| 0 <= i < p.remove.len() && p.remove[i] == name
}

/// The overrides the patch entity holds for the given type name: the first
/// `modify` entry carrying that name, if any.
pub open spec fn lookup_modify(p: PatchEntityModel, name: Seq<u8>) -> Option<Seq<FieldModel>>
    decreases p.modify.len(),
{
    if p.modify.len() == 0 {
        None
    } else if p.modify[0].name == name {
        Some(p.modify[0].overrides)
    } else {
        lookup_modify(PatchEntityModel { modify: p.modify.drop_first(), ..p }, name)
    }
}

/// Whether some prefab entity carries the given snapshot-local id.
pub open spec fn prefab_has_entity(entities: Seq<PrefabEntityModel>, id: u32) -> bool {
    exists|i: int| 0 <= i < entities.len() && entities[i].entity == id
}

/// Events the asset store reports; the spawner reacts to `Modified` alone.
#[derive(Clone, Copy, PartialEq, Eq, Structural, Debug)]
pub enum AssetEvent {
    Created { handle: u64 },
    Modified { handle: u64 },
    Removed { handle: u64 },
}

/// The asset store the spawner resolves prefab handles against. A handle
/// that is absent stands for a prefab that is still loading or invalid.
pub struct PrefabAssets {
    pub entries: Vec<(u64, Prefab)>,
}

/// Mathematical model of [`PrefabAssets`]: handle/prefab pairs in insertion
/// order; lookups take the first entry with the handle.
pub open spec fn assets_get(entries: Seq<(u64, Seq<PrefabEntityModel>)>, handle: u64) -> Option<
    Seq<PrefabEntityModel>,
>
    decreases entries.len(),
{
    if entries.len() == 0 {
        None
    } else if entries[0].0 == handle {
        Some(entries[0].1)
    } else {
        assets_get(entries.drop_first(), handle)
    }
}

impl View for PrefabAssets {
    type V = Seq<(u64, Seq<PrefabEntityModel>)>;

    open spec fn view(&self) -> Seq<(u64, Seq<PrefabEntityModel>)> {
        self.entries@.map_values(|e: (u64, Prefab)| (e.0, e.1@))
    }
}

impl PrefabAssets {
    /// An empty store.
    pub fn new() -> (r: PrefabAssets)
        ensures
            r@ == Seq::<(u64, Seq<PrefabEntityModel>)>::empty(),
    {
        let r = PrefabAssets { entries: Vec::new() };
        proof {
            assert(r@ =~= Seq::<(u64, Seq<PrefabEntityModel>)>::empty());
        }
        r
    }

    /// Store a prefab under the given handle; an earlier entry with the
    /// same handle keeps priority on lookup.
    pub fn insert(&mut self, handle: u64, prefab: Prefab)
        ensures
            final(self)@ == old(self)@.push((handle, prefab@)),
    {
        self.entries.push((handle, prefab));
        proof {
            assert(self@ =~= old(self)@.push((handle, self.entries@.last().1@)));
        }
    }

    /// The prefab stored under the given handle, if it resolves.
    pub fn get(&self, handle: u64) -> (r: Option<&Prefab>)
        ensures
            match r {
                Some(p) => assets_get(self@, handle) == Some(p@),
                None => assets_get(self@, handle) == None::<Seq<PrefabEntityModel>>,
            },
    {
        let mut i: usize = 0;
        proof {
            assert(self@.skip(0) =~= self@);
        }
        while i < self.entries.len()
            invariant
                i <= self.entries.len(),
                assets_get(self@, handle) == assets_get(self@.skip(i as int), handle),
            decreases self.entries.len() - i,
        {
            if self.entries[i].0 == handle {
                proof {
                    assert(self@.skip(i as int)[0] == self@[i as int]);
                    reveal_with_fuel(assets_get, 2);
                }
                return Some(&self.entries[i].1);
            }
            proof {
                assert(self@.skip(i as int)[0] == self@[i as int]);
                assert(self@.skip(i as int).drop_first() =~= self@.skip(i + 1));
                reveal_with_fuel(assets_get, 2);
            }
            i += 1;
        }
        proof {
            assert(self@.skip(self@.len() as int) =~= Seq::<(u64, Seq<PrefabEntityModel>)>::empty());
        }
        None
    }
}

} // verus!
