use vstd::prelude::*;

verus! {

/// Flattening a component failed.
#[derive(Debug, Clone, Copy, PartialEq, Eq, Structural)]
pub enum FlattenComponentError {
    /// The connections could not be reindexed.
    BuildError,
}

/// A request named a component that does not fit it.
#[derive(Debug, Clone, Copy, PartialEq, Eq, Structural)]
pub enum ComponentRequestError {
    /// No component has this id.
    InvalidComponentId(usize),
    /// The component is not primitive.
    NonPrimitive,
}

/// A request for port values failed.
#[derive(Debug, Clone, Copy, PartialEq, Eq, Structural)]
pub enum DataRequestError {
    /// The component could not be found.
    InvalidComponentId(ComponentRequestError),
    /// The component has no input port with this index.
    InvalidInputPortIndex(usize),
    /// The component has no output port with this index.
    InvalidOutputPortIndex(usize),
}

impl From<ComponentRequestError> for DataRequestError {
    fn from(e: ComponentRequestError) -> (r: DataRequestError)
        ensures
            r == DataRequestError::InvalidComponentId(e),
    {
        DataRequestError::InvalidComponentId(e)
    }
}

impl vstd::std_specs::convert::FromSpecImpl<ComponentRequestError> for DataRequestError {
    open spec fn obeys_from_spec() -> bool {
        true
    }

    open spec fn from_spec(e: ComponentRequestError) -> DataRequestError {
        DataRequestError::InvalidComponentId(e)
    }
}

} // verus!
