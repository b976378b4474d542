//! The type-erased value model: a `Value` is a unit of component data
//! identified by a stable type name, holding named fields that can be
//! navigated by path, overwritten, and applied onto another value of the
//! same type.
use vstd::prelude::*;

verus! {

/// The datum stored in one field of a [`Value`]: either plain integer data
/// or a reference to another entity. Inside a snapshot an `EntityRef` holds
/// a snapshot-local id; after instantiation the writer rewrites it to a live
/// record id.
#[derive(Clone, Copy, PartialEq, Eq, Structural, Debug)]
pub enum FieldData {
    Int(i64),
    EntityRef(u64),
}

/// One named field of a [`Value`]: a dotted path and its datum.
pub struct Field {
    pub path: Vec<u8>,
    pub data: FieldData,
}

/// A type-erased unit of component data. The type name is the stable,
/// globally unique key under which the type registry knows this kind of
/// value.
pub struct Value {
    pub name: Vec<u8>,
    pub fields: Vec<Field>,
}

/// Mathematical model of a [`Field`].
#[verifier::ext_equal]
pub ghost struct FieldModel {
    pub path: Seq<u8>,
    pub data: FieldData,
}

/// Mathematical model of a [`Value`].
#[verifier::ext_equal]
pub ghost struct ValueModel {
    pub name: Seq<u8>,
    pub fields: Seq<FieldModel>,
}

impl View for Field {
    type V = FieldModel;

    open spec fn view(&self) -> FieldModel {
        FieldModel { path: self.path@, data: self.data }
    }
}

impl View for Value {
    type V = ValueModel;

    open spec fn view(&self) -> ValueModel {
        ValueModel {
            name: self.name@,
            fields: self.fields@.map_values(|f: Field| f@),
        }
    }
}

impl Field {
    /// An owned copy of this field.
    pub fn clone_field(&self) -> (r: Field)
        ensures
            r@ == self@,
    {
        Field { path: self.path.clone(), data: self.data }
    }
}

impl Value {
    /// An owned deep copy of this value.
    pub fn clone_value(&self) -> (r: Value)
        ensures
            r@ == self@,
    {
        let mut fields: Vec<Field> = Vec::new();
        let mut i: usize = 0;
        while i < self.fields.len()
            invariant
                i <= self.fields.len(),
                fields@.len() == i,
                forall|j: int| 0 <= j < i ==> #[trigger] fields@[j]@ == self.fields@[j]@,
            decreases self.fields.len() - i,
        {
            fields.push(self.fields[i].clone_field());
            i += 1;
        }
        let r = Value { name: self.name.clone(), fields };
        proof {
            assert(r@.fields =~= self@.fields);
            assert(r@ =~= self@);
        }
        r
    }
}

} // verus!
