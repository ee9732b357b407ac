//! An ordered key-value map interface for callers to implement. The numeric
//! modules neither use nor depend on it.
use vstd::prelude::*;

verus! {

/// A map from ordered keys to values. `entries` is the abstract content an
/// implementation holds; each operation is stated over it.
pub trait OrderedMap<K: Ord, V> {
    /// The key-value pairs the map holds.
    spec fn entries(&self) -> Map<K, V>;

    /// The value stored under `key`, or `None` when the key is absent.
    fn get(&self, key: &K) -> (r: Option<V>)
        ensures
            r == (if self.entries().contains_key(*key) {
                Some(self.entries()[*key])
            } else {
                None
            }),
    ;

    /// Removes `key` and returns the value it held, if any.
    fn erase(&mut self, key: &K) -> (r: Option<V>)
        ensures
            final(self).entries() == old(self).entries().remove(*key),
            r == (if old(self).entries().contains_key(*key) {
                Some(old(self).entries()[*key])
            } else {
                None
            }),
    ;

    /// Stores `value` under `key`, replacing and returning any previous value.
    fn insert(&mut self, key: K, value: V) -> (r: Option<V>)
        ensures
            final(self).entries() == old(self).entries().insert(key, value),
            r == (if old(self).entries().contains_key(key) {
                Some(old(self).entries()[key])
            } else {
                None
            }),
    ;
}

} // verus!
