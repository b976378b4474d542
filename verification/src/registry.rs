//! The type registry: maps a stable type name to the capabilities the live
//! collection has for that type — whether values of it can be captured and
//! applied as components, whether insertion goes through a custom path, and
//! whether values of it carry references to other entities that must be
//! rewritten after instantiation.
use vstd::prelude::*;

verus! {

/// What the registry knows about one type name.
pub struct Registration {
    /// The stable type name this entry is for.
    pub name: Vec<u8>,
    /// The type can be captured from and applied onto live records.
    pub reflect_component: bool,
    /// Insertion goes through a custom insert routine that fully owns
    /// attaching the value; such types bypass the component capability and
    /// the reference-rewrite bookkeeping.
    pub custom_insert: bool,
    /// Values of this type may reference other entities and take part in the
    /// writer's reference-rewrite pass.
    pub map_entities: bool,
}

/// Mathematical model of a [`Registration`].
#[verifier::ext_equal]
pub ghost struct RegistrationModel {
    pub name: Seq<u8>,
    pub reflect_component: bool,
    pub custom_insert: bool,
    pub map_entities: bool,
}

impl View for Registration {
    type V = RegistrationModel;

    open spec fn view(&self) -> RegistrationModel {
        RegistrationModel {
            name: self.name@,
            reflect_component: self.reflect_component,
            custom_insert: self.custom_insert,
            map_entities: self.map_entities,
        }
    }
}

/// A registry of type names, looked up by name; the first entry with a given
/// name wins.
pub struct TypeRegistry {
    pub entries: Vec<Registration>,
}

impl View for TypeRegistry {
    type V = Seq<RegistrationModel>;

    open spec fn view(&self) -> Seq<RegistrationModel> {
        self.entries@.map_values(|r: Registration| r@)
    }
}

/// The registration a registry resolves `name` to: the first entry carrying
/// that name, if any.
pub open spec fn reg_get(entries: Seq<RegistrationModel>, name: Seq<u8>) -> Option<
    RegistrationModel,
>
    decreases entries.len(),
{
    if entries.len() == 0 {
        None
    } else if entries[0].name == name {
        Some(entries[0])
    } else {
        reg_get(entries.drop_first(), name)
    }
}

impl Registration {
    /// An owned copy of this registration.
    pub fn clone_registration(&self) -> (r: Registration)
        ensures
            r@ == self@,
    {
        Registration {
            name: self.name.clone(),
            reflect_component: self.reflect_component,
            custom_insert: self.custom_insert,
            map_entities: self.map_entities,
        }
    }
}

impl TypeRegistry {
    /// An empty registry.
    pub fn new() -> (r: TypeRegistry)
        ensures
            r@ == Seq::<RegistrationModel>::empty(),
    {
        let r = TypeRegistry { entries: Vec::new() };
        proof {
            assert(r@ =~= Seq::<RegistrationModel>::empty());
        }
        r
    }

    /// Add a registration at the end; an earlier entry with the same name
    /// keeps priority.
    pub fn register(&mut self, r: Registration)
        ensures
            final(self)@ == old(self)@.push(r@),
    {
        self.entries.push(r);
        proof {
            assert(self@ =~= old(self)@.push(self.entries@.last()@));
        }
    }

    /// Look the given name up, returning the first registration carrying it.
    pub fn get_with_name(&self, name: &Vec<u8>) -> (r: Option<&Registration>)
        ensures
            match r {
                Some(reg) => reg_get(self@, name@) == Some(reg@),
                None => reg_get(self@, name@) == None::<RegistrationModel>,
            },
    {
        let mut i: usize = 0;
        proof {
            assert(self@.skip(0) =~= self@);
        }
        while i < self.entries.len()
            invariant
                i <= self.entries.len(),
                reg_get(self@, name@) == reg_get(self@.skip(i as int), name@),
                forall|j: int| 0 <= j < i ==> #[trigger] self@[j].name != name@,
            decreases self.entries.len() - i,
        {
            if bytes_eq(&self.entries[i].name, name) {
                proof {
                    assert(self@.skip(i as int)[0] == self@[i as int]);
                    reveal_with_fuel(reg_get, 2);
                }
                return Some(&self.entries[i]);
            }
            proof {
                assert(self@.skip(i as int).drop_first() =~= self@.skip(i + 1));
                reveal_with_fuel(reg_get, 2);
            }
            i += 1;
        }
        proof {
            assert(self@.skip(self@.len() as int) =~= Seq::<RegistrationModel>::empty());
        }
        None
    }

    /// An owned copy of this registry.
    pub fn clone_registry(&self) -> (r: TypeRegistry)
        ensures
            r@ == self@,
    {
        let mut entries: Vec<Registration> = Vec::new();
        let mut i: usize = 0;
        while i < self.entries.len()
            invariant
                i <= self.entries.len(),
                entries@.len() == i,
                forall|j: int| 0 <= j < i ==> #[trigger] entries@[j]@ == self.entries@[j]@,
            decreases self.entries.len() - i,
        {
            entries.push(self.entries[i].clone_registration());
            i += 1;
        }
        let r = TypeRegistry { entries };
        proof {
            assert(r@ =~= self@);
        }
        r
    }
}

/// Whether two byte strings hold the same bytes.
pub fn bytes_eq(a: &Vec<u8>, b: &Vec<u8>) -> (r: bool)
    ensures
        r == (a@ == b@),
{
    if a.len() != b.len() {
        proof {
            assert(a@ != b@) by {
                assert(a@.len() != b@.len());
            }
        }
        return false;
    }
    let mut i: usize = 0;
    while i < a.len()
        invariant
            a@.len() == b@.len(),
            i <= a@.len(),
            forall|j: int| 0 <= j < i ==> a@[j] == b@[j],
        decreases a@.len() - i,
    {
        if a[i] != b[i] {
            return false;
        }
        i += 1;
    }
    proof {
        assert(a@ =~= b@);
    }
    true
}

} // verus!
