//! Errors of the cache and of its persistence.
use vstd::prelude::*;
use vstd::string::StringExecFns;

verus! {

/// What can go wrong when a cache is built or made durable.
#[derive(Debug)]
pub enum CacheError {
    /// The capacity asked for cannot hold any entry.
    CapacityError(String),
    /// The durable location could not be opened, read or written.
    StorageError(String),
    /// The durable content is present but cannot be decoded.
    ParseError(String),
}

impl CacheError {
    /// The text of the error: what kind it is, then its message.
    pub open spec fn text(&self) -> Seq<char> {
        match self {
            CacheError::CapacityError(message) => "Erreur de capacité: "@ + message@,
            CacheError::StorageError(message) => "Erreur I/O: "@ + message@,
            CacheError::ParseError(message) => "Erreur de parsing: "@ + message@,
        }
    }

    /// The error as a line of text for the user.
    pub fn to_string(&self) -> (text: String)
        ensures
            text@ == self.text(),
    {
        match self {
            CacheError::CapacityError(message) => {
                String::from_str("Erreur de capacité: ").concat(message.as_str())
            },
            CacheError::StorageError(message) => {
                String::from_str("Erreur I/O: ").concat(message.as_str())
            },
            CacheError::ParseError(message) => {
                String::from_str("Erreur de parsing: ").concat(message.as_str())
            },
        }
    }
}

} // verus!
