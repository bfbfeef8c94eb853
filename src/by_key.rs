//! A key with a value attached that compares, hashes and orders by its key.

use vstd::prelude::*;

verus! {

#[derive(Clone, Copy, Debug, Default)]
pub struct ByKey<K, V> {
    pub key: K,
    pub value: V,
}

impl<K, V> ByKey<K, V> {
    pub fn new(key: K, value: V) -> (r: Self)
        ensures
            r.key == key,
            r.value == value,
    {
        ByKey { key, value }
    }

    pub fn into_parts(self) -> (r: (K, V))
        ensures
            r == (self.key, self.value),
    {
        (self.key, self.value)
    }
}

impl<V> ByKey<usize, V> {
    /// Whether the two have the same key, whatever their values.
    pub fn same_key(&self, o: &Self) -> (r: bool)
        ensures
            r == (self.key == o.key),
    {
        self.key == o.key
    }

    /// Whether `self` comes before `o`: its key is smaller.
    pub fn key_lt(&self, o: &Self) -> (r: bool)
        ensures
            r == (self.key < o.key),
    {
        self.key < o.key
    }
}

} // verus!
