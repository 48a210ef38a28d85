//! The engine contract: `set`, `get` and `remove` over string keys.
use vstd::prelude::*;
use crate::errors::KvsError;
use crate::store::KvStore;

verus! {

/// A storage engine. An operation may fail on I/O, unless the engine is
/// infallible; then nothing changes.
pub trait KvsEngine {
    /// The binding of every key.
    spec fn contents(&self) -> Map<Seq<char>, Seq<char>>;

    /// The engine's invariant.
    spec fn ready(&self) -> bool;

    /// The engine does no I/O of its own, so its operations never fail on it.
    spec fn infallible(&self) -> bool;

    /// Binds `key` to `val`, replacing an earlier value.
    fn set(&mut self, key: String, val: String) -> (r: Result<(), KvsError>)
        requires
            old(self).ready(),
        ensures
            final(self).ready(),
            final(self).infallible() == old(self).infallible(),
            old(self).infallible() ==> r is Ok,
            match r {
                Ok(()) => final(self).contents() == old(self).contents().insert(key@, val@),
                Err(e) => e is Io && final(self).contents() == old(self).contents(),
            },
    ;

    /// The value bound to `key`, if any.
    fn get(&mut self, key: String) -> (r: Result<Option<String>, KvsError>)
        requires
            old(self).ready(),
        ensures
            final(self).ready(),
            final(self).infallible() == old(self).infallible(),
            old(self).infallible() ==> r is Ok,
            final(self).contents() == old(self).contents(),
            match r {
                Ok(Some(v)) => old(self).contents().contains_key(key@) && v@ == old(self).contents()[key@],
                Ok(None) => !old(self).contents().contains_key(key@),
                Err(e) => e is Io,
            },
    ;

    /// Unbinds `key`; fails with `KeyNotFound` where it is not bound.
    fn remove(&mut self, key: String) -> (r: Result<(), KvsError>)
        requires
            old(self).ready(),
        ensures
            final(self).ready(),
            final(self).infallible() == old(self).infallible(),
            old(self).infallible() && old(self).contents().contains_key(key@) ==> r is Ok,
            !old(self).contents().contains_key(key@) ==> (r matches Err(KvsError::KeyNotFound(e))
                && e.key@ == key@ && final(self).contents() == old(self).contents()),
            old(self).contents().contains_key(key@) ==> match r {
                Ok(()) => final(self).contents() == old(self).contents().remove(key@),
                Err(e) => e is Io && final(self).contents() == old(self).contents(),
            },
    ;
}

impl KvsEngine for KvStore {
    open spec fn contents(&self) -> Map<Seq<char>, Seq<char>> {
        self.bindings()
    }

    open spec fn ready(&self) -> bool {
        self.wf()
    }

    open spec fn infallible(&self) -> bool {
        true
    }

    fn set(&mut self, key: String, val: String) -> (r: Result<(), KvsError>) {
        KvStore::set(self, key, val)
    }

    fn get(&mut self, key: String) -> (r: Result<Option<String>, KvsError>) {
        KvStore::get(self, key)
    }

    fn remove(&mut self, key: String) -> (r: Result<(), KvsError>) {
        KvStore::remove(self, key)
    }
}

} // verus!
