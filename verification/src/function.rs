use vstd::prelude::*;
use crate::naming::TypeName;
use crate::parsed::type_def::TypeDef;

verus! {

/// A free function the generator will render; it carries only its type name
/// here.
#[derive(Clone, Debug)]
pub struct Function {
    pub name: TypeName,
}

impl Function {
    pub fn from_type_name(name: TypeName) -> (r: Function)
        ensures
            r.name == name,
    {
        Function { name }
    }

    /// A free function pulls no further types into the closure.
    pub fn dependencies(&self) -> (r: Vec<TypeDef>)
        ensures
            r@.len() == 0,
    {
        Vec::new()
    }
}

} // verus!
