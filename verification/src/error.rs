//! The error taxonomy shared by every fallible operation.

use vstd::prelude::*;

verus! {

/// One error value per failed operation, tagged with the kind of failure
/// and a short human-readable message.
#[derive(Debug, Clone)]
pub enum Error {
    /// File-level trouble: bad headers, checksum mismatches, truncated
    /// blocks, failed compression.
    Storage(String),
    /// An event could not be encoded or decoded.
    Serialization(String),
    /// Query parsing or execution failed.
    Query(String),
    /// A conflict-free replicated type misbehaved.
    Crdt(String),
    /// A distributed-systems layer failed.
    Distributed(String),
    /// A timestamp fell outside the range that an operation allows.
    Temporal(String),
    /// An index could not be built or consulted.
    Index(String),
    /// A network or API call failed.
    Network(String),
    /// The system was configured inconsistently.
    Configuration(String),
    /// A raw operating-system error, carried as its rendered message.
    Io(String),
    /// Anything that fits no other kind.
    Other(String),
}

impl Error {
    /// The message carried by the error, whatever its kind.
    pub fn message(&self) -> (r: &String)
        ensures
            r@ == self.spec_message(),
    {
        match self {
            Error::Storage(m) => m,
            Error::Serialization(m) => m,
            Error::Query(m) => m,
            Error::Crdt(m) => m,
            Error::Distributed(m) => m,
            Error::Temporal(m) => m,
            Error::Index(m) => m,
            Error::Network(m) => m,
            Error::Configuration(m) => m,
            Error::Io(m) => m,
            Error::Other(m) => m,
        }
    }

    /// The message carried by the error.
    pub open spec fn spec_message(self) -> Seq<char> {
        match self {
            Error::Storage(m) => m@,
            Error::Serialization(m) => m@,
            Error::Query(m) => m@,
            Error::Crdt(m) => m@,
            Error::Distributed(m) => m@,
            Error::Temporal(m) => m@,
            Error::Index(m) => m@,
            Error::Network(m) => m@,
            Error::Configuration(m) => m@,
            Error::Io(m) => m@,
            Error::Other(m) => m@,
        }
    }
}

/// The result type used throughout the crate.
pub type StorageResult<T> = Result<T, Error>;

} // verus!
