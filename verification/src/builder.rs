//! The snapshot builder: walks a set of live records, captures every
//! attached value whose type the registry knows as a component, and
//! assembles a [`Prefab`]. Capturing is idempotent: re-extracting an
//! identity already captured in the same build is a no-op, and output
//! order is extraction order.
use crate::asset::{prefab_has_entity, Prefab, PrefabEntity, PrefabEntityModel};
use crate::registry::{reg_get, RegistrationModel, TypeRegistry};
use crate::value::{Value, ValueModel};
use crate::world::{find_record, lemma_find_record, World};
use crate::writer::values_view;
use vstd::prelude::*;

verus! {

/// The values of a record the builder captures: those whose type name the
/// registry knows with the component capability, in order.
pub open spec fn captured(values: Seq<ValueModel>, reg: Seq<RegistrationModel>) -> Seq<ValueModel>
    decreases values.len(),
{
    if values.len() == 0 {
        Seq::empty()
    } else {
        let rest = captured(values.drop_first(), reg);
        match reg_get(reg, values[0].name) {
            Some(r) => if r.reflect_component {
                Seq::empty().push(values[0]) + rest
            } else {
                rest
            },
            None => rest,
        }
    }
}

/// One extraction: an identity already captured, or one naming no record,
/// leaves the build unchanged; otherwise the record's captured values are
/// appended under the local id derived from the identity.
pub open spec fn extract_step(
    entities: Seq<PrefabEntityModel>,
    records: Seq<crate::world::RecordModel>,
    reg: Seq<RegistrationModel>,
    id: u64,
) -> Seq<PrefabEntityModel> {
    let local = id as u32;
    if prefab_has_entity(entities, local) {
        entities
    } else {
        match find_record(records, id) {
            None => entities,
            Some(i) => entities.push(
                PrefabEntityModel { entity: local, components: captured(records[i].values, reg) },
            ),
        }
    }
}

/// Extraction of a list of identities, in order.
pub open spec fn extract_fold(
    entities: Seq<PrefabEntityModel>,
    records: Seq<crate::world::RecordModel>,
    reg: Seq<RegistrationModel>,
    ids: Seq<u64>,
) -> Seq<PrefabEntityModel>
    decreases ids.len(),
{
    if ids.len() == 0 {
        entities
    } else {
        extract_fold(extract_step(entities, records, reg, ids[0]), records, reg, ids.drop_first())
    }
}

/// A [`Prefab`] builder: extracts entities and their component values from
/// a live collection.
pub struct PrefabBuilder {
    pub entities: Vec<PrefabEntity>,
    pub registry: TypeRegistry,
}

impl PrefabBuilder {
    /// The build so far, as models.
    pub open spec fn entities_view(&self) -> Seq<PrefabEntityModel> {
        self.entities@.map_values(|e: PrefabEntity| e@)
    }

    /// A builder over the registry the given collection was set up with:
    /// every type that registry knows as a component will be captured.
    pub fn from_world(world: &World) -> (r: PrefabBuilder)
        ensures
            r.entities_view() == Seq::<PrefabEntityModel>::empty(),
            r.registry@ == world@.registry,
    {
        let registry = world.registry.clone_registry();
        Self::from_world_with_registry(registry)
    }

    /// A builder over the given registry: only types it knows as
    /// components will be captured.
    pub fn from_world_with_registry(registry: TypeRegistry) -> (r: PrefabBuilder)
        ensures
            r.entities_view() == Seq::<PrefabEntityModel>::empty(),
            r.registry@ == registry@,
    {
        let r = PrefabBuilder { entities: Vec::new(), registry };
        proof {
            assert(r.entities_view() =~= Seq::<PrefabEntityModel>::empty());
        }
        r
    }

    /// Consume the builder, producing a [`Prefab`].
    pub fn build(self) -> (r: Prefab)
        ensures
            r@ == self.entities_view(),
    {
        Prefab { entities: self.entities }
    }

    /// Extract one record from the given collection. Re-extracting an
    /// identity already extracted has no effect.
    pub fn extract_entity(&mut self, world: &World, id: u64)
        requires
            id <= u32::MAX,
        ensures
            final(self).entities_view() == extract_step(
                old(self).entities_view(),
                world@.records,
                old(self).registry@,
                id,
            ),
            final(self).registry@ == old(self).registry@,
    {
        let mut ids: Vec<u64> = Vec::new();
        ids.push(id);
        self.extract_entities(world, &ids);
        proof {
            assert(ids@[0] == id);
            assert(ids@.drop_first() =~= Seq::<u64>::empty());
            reveal_with_fuel(extract_fold, 2);
        }
    }

    /// Extract records from the given collection, in order. Identities
    /// already extracted, and identities naming no record, are skipped.
    pub fn extract_entities(&mut self, world: &World, ids: &Vec<u64>)
        requires
            forall|j: int| 0 <= j < ids@.len() ==> #[trigger] ids@[j] <= u32::MAX,
        ensures
            final(self).entities_view() == extract_fold(
                old(self).entities_view(),
                world@.records,
                old(self).registry@,
                ids@,
            ),
            final(self).registry@ == old(self).registry@,
    {
        let ghost e0 = self.entities_view();
        let ghost recs = world@.records;
        let ghost reg = self.registry@;
        let mut j: usize = 0;
        proof {
            assert(ids@.skip(0) =~= ids@);
        }
        while j < ids.len()
            invariant
                j <= ids.len(),
                e0 == old(self).entities_view(),
                recs == world@.records,
                reg == old(self).registry@,
                self.registry@ == reg,
                forall|q: int| 0 <= q < ids@.len() ==> #[trigger] ids@[q] <= u32::MAX,
                extract_fold(e0, recs, reg, ids@) == extract_fold(
                    self.entities_view(),
                    recs,
                    reg,
                    ids@.skip(j as int),
                ),
            decreases ids.len() - j,
        {
            proof {
                assert(ids@.skip(j as int)[0] == ids@[j as int]);
                assert(ids@.skip(j as int).drop_first() =~= ids@.skip(j + 1));
            }
            let ghost before = self.entities_view();
            let id = ids[j];
            let local = id as u32;
            if !self.has_local(local) {
                match world.index_of(id) {
                    None => {
                    },
                    Some(i) => {
                        proof {
                            lemma_find_record(recs, id);
                        }
                        let comps = capture_values(&world.records[i].values, &self.registry);
                        proof {
                            assert(values_view(world.records@[i as int].values@) == recs[i as int].values);
                        }
                        self.entities.push(PrefabEntity { entity: local, components: comps });
                        proof {
                            assert(self.entities_view() =~= before.push(
                                self.entities@.last()@,
                            ));
                            assert(self.entities@.last()@ =~= (PrefabEntityModel {
                                entity: local,
                                components: captured(recs[i as int].values, reg),
                            }));
                        }
                    },
                }
            }
            proof {
                assert(extract_fold(before, recs, reg, ids@.skip(j as int)) == extract_fold(
                    self.entities_view(),
                    recs,
                    reg,
                    ids@.skip(j + 1),
                ));
            }
            j += 1;
        }
        proof {
            assert(ids@.skip(ids@.len() as int) =~= Seq::<u64>::empty());
        }
    }

    /// Whether the build already holds an entity with the given local id.
    fn has_local(&self, local: u32) -> (r: bool)
        ensures
            r == prefab_has_entity(self.entities_view(), local),
    {
        let mut i: usize = 0;
        while i < self.entities.len()
            invariant
                i <= self.entities.len(),
                forall|j: int| 0 <= j < i ==> #[trigger] self.entities_view()[j].entity != local,
            decreases self.entities.len() - i,
        {
            if self.entities[i].entity == local {
                assert(self.entities_view()[i as int].entity == local);
                return true;
            }
            i += 1;
        }
        false
    }
}

impl Prefab {
    /// Capture every record of the given collection into a prefab, in
    /// record order, under the collection's own registry.
    pub fn from_world(world: &World) -> (r: Prefab)
        requires
            forall|j: int|
                0 <= j < world@.records.len() ==> (#[trigger] world@.records[j]).id <= u32::MAX,
        ensures
            r@ == extract_fold(
                Seq::empty(),
                world@.records,
                world@.registry,
                world@.records.map_values(|rec: crate::world::RecordModel| rec.id),
            ),
    {
        let mut ids: Vec<u64> = Vec::new();
        let mut i: usize = 0;
        while i < world.records.len()
            invariant
                i <= world.records.len(),
                ids@.len() == i,
                forall|j: int| 0 <= j < i ==> #[trigger] ids@[j] == world@.records[j].id,
            decreases world.records.len() - i,
        {
            ids.push(world.records[i].id);
            proof {
                assert(world.records@[i as int]@.id == world@.records[i as int].id);
            }
            i += 1;
        }
        proof {
            assert(ids@ =~= world@.records.map_values(
                |rec: crate::world::RecordModel| rec.id,
            ));
        }
        let mut builder = PrefabBuilder::from_world(world);
        builder.extract_entities(world, &ids);
        builder.build()
    }
}

/// The captured values of one record: a clone of every value whose type
/// the registry knows as a component.
fn capture_values(values: &Vec<Value>, registry: &TypeRegistry) -> (r: Vec<Value>)
    ensures
        values_view(r@) == captured(values_view(values@), registry@),
{
    let ghost vm = values_view(values@);
    let ghost reg = registry@;
    let mut r: Vec<Value> = Vec::new();
    let mut m: usize = 0;
    proof {
        assert(vm.skip(0) =~= vm);
        assert(values_view(r@) + captured(vm.skip(0), reg) =~= captured(vm, reg));
    }
    while m < values.len()
        invariant
            m <= values.len(),
            vm == values_view(values@),
            reg == registry@,
            captured(vm, reg) == values_view(r@) + captured(vm.skip(m as int), reg),
        decreases values.len() - m,
    {
        proof {
            assert(vm.skip(m as int)[0] == vm[m as int]);
            assert(vm.skip(m as int).drop_first() =~= vm.skip(m + 1));
            assert(vm[m as int] == values@[m as int]@);
        }
        let ghost rb = values_view(r@);
        let keep = match registry.get_with_name(&values[m].name) {
            Some(reg_entry) => reg_entry.reflect_component,
            None => false,
        };
        if keep {
            r.push(values[m].clone_value());
            proof {
                assert(values_view(r@) =~= rb.push(vm[m as int]));
                assert(captured(vm.skip(m as int), reg) == Seq::empty().push(vm[m as int])
                    + captured(vm.skip(m + 1), reg));
                assert(values_view(r@) + captured(vm.skip(m + 1), reg) =~= rb + (Seq::empty().push(
                    vm[m as int],
                ) + captured(vm.skip(m + 1), reg)));
            }
        } else {
            proof {
                assert(captured(vm.skip(m as int), reg) == captured(vm.skip(m + 1), reg));
            }
        }
        m += 1;
    }
    proof {
        assert(vm.skip(vm.len() as int) =~= Seq::<ValueModel>::empty());
        assert(values_view(r@) + captured(vm.skip(vm.len() as int), reg) =~= values_view(r@));
    }
    r
}

} // verus!
