//! The interface that every cache of this library offers.
use vstd::prelude::*;
use crate::lru::model::{fits, stored, touched, value_of};

verus! {

/// The two operations of a cache with least-recently-used eviction.
///
/// An implementation says what it holds through `contents`, the resident
/// entries from the least to the most recently used, and through `bound`,
/// the number of entries it can hold. The contracts of `get` and `put` are
/// stated over these two.
pub trait CacheTrait<K, V> {
    /// The internal invariant of the implementation.
    spec fn well_formed(&self) -> bool;

    /// The resident entries, least recently used first.
    spec fn contents(&self) -> Seq<(K, V)>;

    /// The capacity, fixed when the cache is made.
    spec fn bound(&self) -> nat;

    /// A well-formed cache holds distinct keys and no more than its bound.
    proof fn contents_fit(&self)
        requires
            self.well_formed(),
        ensures
            fits(self.contents(), self.bound()),
    ;

    /// Looks `key` up. A hit returns the value and makes the entry the
    /// most recently used one. A miss returns `None` and changes nothing.
    fn get(&mut self, key: &K) -> (result: Option<&V>)
        requires
            old(self).well_formed(),
        ensures
            final(self).well_formed(),
            final(self).bound() == old(self).bound(),
            final(self).contents() == touched(old(self).contents(), *key),
            final(self).contents().len() == old(self).contents().len(),
            match result {
                Some(value) => value_of(old(self).contents(), *key) == Some(*value),
                None => value_of(old(self).contents(), *key) is None,
            },
    ;

    /// Stores `value` under `key` and makes the entry the most recently
    /// used one. A resident key gets the new value. A new key enters, and
    /// the least recently used entry leaves first if the cache is full.
    fn put(&mut self, key: K, value: V)
        requires
            old(self).well_formed(),
        ensures
            final(self).well_formed(),
            final(self).bound() == old(self).bound(),
            final(self).contents() == stored(
                old(self).contents(),
                old(self).bound(),
                key,
                value,
            ),
            final(self).contents().len() <= final(self).bound(),
    ;
}

} // verus!
