use vstd::prelude::*;
use crate::component::ComponentId;

verus! {

/// A query asked for a kind of component more than once with at least one of the requests
/// mutable, or asked for a kind of component that is already lent out in a conflicting way.
#[derive(Debug, PartialEq, Eq, Structural, Clone, Copy)]
pub struct BorrowMutError {
    component_id: ComponentId,
}

impl BorrowMutError {
    /// The kind of component that could not be borrowed.
    pub closed spec fn spec_component_id(self) -> ComponentId {
        self.component_id
    }

    pub fn new(component_id: ComponentId) -> (e: Self)
        ensures
            e.spec_component_id() == component_id,
    {
        Self { component_id }
    }

    /// The kind of component that could not be borrowed.
    pub fn component_id(&self) -> (id: ComponentId)
        ensures
            id == self.spec_component_id(),
    {
        self.component_id
    }
}

} // verus!
