//! The errors of the store, of its engines and of the protocol.
use vstd::prelude::*;

verus! {

/// Returned when a key that is not bound is removed.
#[derive(Debug, Clone, PartialEq, Eq)]
pub struct ErrKeyNotFound {
    pub key: String,
}

impl ErrKeyNotFound {
    /// The text shown to a user: `key not found: <key>`.
    pub fn message(&self) -> (r: String)
        ensures
            r@ == "key not found: "@ + self.key@,
    {
        let mut s = String::from_str("key not found: ");
        s.append(self.key.as_str());
        s
    }
}

/// Everything that can go wrong in the store, its engines and the protocol.
#[derive(Debug, Clone, PartialEq, Eq)]
pub enum KvsError {
    /// A key that is not bound was removed.
    KeyNotFound(ErrKeyNotFound),
    /// A disk or socket failure, with its description.
    Io(String),
    /// A malformed record in a log or in a request.
    Decode,
    /// An invalid setting, such as an unknown engine name.
    Config(String),
}

} // verus!
