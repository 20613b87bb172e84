//! The operations that every LRU cache offers, stated over its model.

use vstd::prelude::*;
use crate::model::LruState;

verus! {

/// A cache that holds a bounded number of key-value associations and, when a
/// new key would exceed the bound, drops the one that has gone longest without
/// being read or written.
pub trait CacheLruTrait<K, T>: Sized {
    /// The abstract state of the cache.
    spec fn model(&self) -> LruState<K, T>;

    /// The well-formedness of the concrete representation.
    spec fn inv(&self) -> bool;

    /// Inserts or updates the association for `key`.
    ///
    /// A resident key takes the new value and becomes most recently used. A
    /// new key is stored as most recently used; if the cache is full, the
    /// least-recently-used entry is evicted first.
    fn set(&mut self, key: K, value: T)
        requires
            old(self).inv(),
        ensures
            final(self).inv(),
            final(self).model().wf(),
            final(self).model() == old(self).model().after_set(key, value),
    ;

    /// Looks `key` up. A hit returns its value and makes the key most
    /// recently used; a miss returns `None` and changes nothing.
    fn get(&mut self, key: K) -> (r: Option<&T>)
        requires
            old(self).inv(),
        ensures
            final(self).inv(),
            final(self).model().wf(),
            final(self).model() == old(self).model().after_get(key),
            r.is_some() == old(self).model().entries.contains_key(key),
            r.is_some() ==> *r.unwrap() == old(self).model().entries[key],
    ;
}

} // verus!
