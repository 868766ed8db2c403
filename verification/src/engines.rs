//! The storage-engine contract: a clonable key-value map of strings with
//! `get`, `set` and `remove`.  [`crate::store::KvStore`] is the
//! log-structured implementation; other backends can implement the same
//! trait.

use vstd::prelude::*;
use crate::store::KvStore;
use crate::KvsError;

verus! {

/// What every storage engine offers: an observable string map, read with
/// `get`, written with `set`, shrunk with `remove`.  `remove` of an absent
/// key fails with `KeyNotFound` and changes nothing.
pub trait KvsEngine: Sized {
    /// The key-value map the engine presents.
    spec fn model(&self) -> Map<Seq<char>, Seq<char>>;

    /// The engine's internal well-formedness.
    spec fn inv(&self) -> bool;

    fn get(&self, key: String) -> (r: Result<Option<String>, KvsError>)
        requires
            self.inv(),
        ensures
            match r {
                Ok(found) => match found {
                    Some(v) => self.model().contains_key(key@) && v@ == self.model()[key@],
                    None => !self.model().contains_key(key@),
                },
                Err(_) => true,
            },
    ;

    fn set(&mut self, key: String, value: String) -> (r: Result<(), KvsError>)
        requires
            old(self).inv(),
        ensures
            final(self).inv(),
            match r {
                Ok(_) => final(self).model() == old(self).model().insert(key@, value@),
                Err(_) => final(self).model() == old(self).model(),
            },
    ;

    fn remove(&mut self, key: String) -> (r: Result<(), KvsError>)
        requires
            old(self).inv(),
        ensures
            final(self).inv(),
            match r {
                Ok(_) => old(self).model().contains_key(key@)
                    && final(self).model() == old(self).model().remove(key@),
                Err(e) => final(self).model() == old(self).model()
                    && ((e matches KvsError::KeyNotFound)
                        ==> !old(self).model().contains_key(key@)),
            },
    ;
}

impl KvsEngine for KvStore {
    open spec fn model(&self) -> Map<Seq<char>, Seq<char>> {
        KvStore::model(self)
    }

    open spec fn inv(&self) -> bool {
        self.wf()
    }

    fn get(&self, key: String) -> (r: Result<Option<String>, KvsError>) {
        KvStore::get(self, key)
    }

    fn set(&mut self, key: String, value: String) -> (r: Result<(), KvsError>) {
        KvStore::set(self, key, value)
    }

    fn remove(&mut self, key: String) -> (r: Result<(), KvsError>) {
        KvStore::remove(self, key)
    }
}

} // verus!
