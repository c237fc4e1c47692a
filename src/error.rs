use serde_json::Error as JsonError;
use vstd::prelude::*;

verus! {

/// What can go wrong when the store is used.
#[derive(Debug, PartialEq, Eq, Structural)]
pub enum Error {
    /// A delete addressed a type that was never used with the store.
    FailToDeleteNoStoreForType,
    /// An update addressed a type that was never used with the store.
    FailToUpdateNoStoreForType,
    /// A value could not be turned into a record, or a record into a value.
    FailFromOrToJsonValue,
}

impl From<JsonError> for Error {
    fn from(e: JsonError) -> (r: Self)
        ensures
            r == Error::FailFromOrToJsonValue,
    {
        Error::FailFromOrToJsonValue
    }
}

impl vstd::std_specs::convert::FromSpecImpl<JsonError> for Error {
    open spec fn obeys_from_spec() -> bool {
        true
    }

    open spec fn from_spec(e: JsonError) -> Self {
        Error::FailFromOrToJsonValue
    }
}

} // verus!
