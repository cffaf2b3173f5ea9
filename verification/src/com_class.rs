use vstd::prelude::*;
use crate::naming::TypeName;
use crate::parsed::type_def::TypeDef;

verus! {

/// A COM class the generator will render; it carries only its type name
/// here.
#[derive(Clone, Debug)]
pub struct ComClass {
    pub name: TypeName,
}

impl ComClass {
    pub fn from_type_name(name: TypeName) -> (r: ComClass)
        ensures
            r.name == name,
    {
        ComClass { name }
    }

    /// A COM class pulls no further types into the closure.
    pub fn dependencies(&self) -> (r: Vec<TypeDef>)
        ensures
            r@.len() == 0,
    {
        Vec::new()
    }
}

} // verus!
