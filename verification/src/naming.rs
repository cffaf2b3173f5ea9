use vstd::prelude::*;

verus! {

/// A type's namespace and name, as the generator-side items carry them.
#[derive(Clone, Debug)]
pub struct TypeName {
    pub namespace: String,
    pub name: String,
}

} // verus!
