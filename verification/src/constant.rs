use vstd::prelude::*;
use crate::naming::TypeName;

verus! {

/// A constant the generator will render; it carries only its type name here.
#[derive(Clone, Debug)]
pub struct Constant {
    pub name: TypeName,
}

impl Constant {
    pub fn from_type_name(name: TypeName) -> (r: Constant)
        ensures
            r.name == name,
    {
        Constant { name }
    }
}

} // verus!
