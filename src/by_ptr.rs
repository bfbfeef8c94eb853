//! Wrappers that stand for a shared allocation rather than for its content.

use vstd::prelude::*;

verus! {

/// A pointer that callers compare and hash by address.
#[derive(Clone, Copy, Debug)]
pub struct ByPtr<T>(pub T);

impl<T> ByPtr<T> {
    pub fn new(v: T) -> (r: Self)
        ensures
            r.0 == v,
    {
        ByPtr(v)
    }

    pub fn into_inner(self) -> (r: T)
        ensures
            r == self.0,
    {
        self.0
    }

    pub fn get(&self) -> (r: &T)
        ensures
            *r == self.0,
    {
        &self.0
    }
}

/// A weak reference used as a key by the address it points to.
#[derive(Clone)]
pub struct WeakKey<T>(pub T);

impl<T> WeakKey<T> {
    pub fn new(v: T) -> (r: Self)
        ensures
            r.0 == v,
    {
        WeakKey(v)
    }

    pub fn into_inner(self) -> (r: T)
        ensures
            r == self.0,
    {
        self.0
    }
}

} // verus!
