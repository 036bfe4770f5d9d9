//! How an operation of the file system can fail.
use vstd::prelude::*;

verus! {

/// The ways in which an operation fails.
#[derive(Debug)]
pub enum Error {
    /// The name or path is not there.
    NotFound,
    /// The store refused a step: opening a transaction, a lookup, a write,
    /// the commit.
    DBError(jammdb::Error),
    /// The name is taken.
    AlreadyExists,
    /// Anything else: the store holds what this file system never writes,
    /// or a count does not fit its type.
    Other,
}

impl From<jammdb::Error> for Error {
    fn from(value: jammdb::Error) -> (e: Error) {
        Error::DBError(value)
    }
}

impl vstd::std_specs::convert::FromSpecImpl<jammdb::Error> for Error {
    open spec fn obeys_from_spec() -> bool {
        true
    }

    open spec fn from_spec(value: jammdb::Error) -> Error {
        Error::DBError(value)
    }
}

} // verus!
