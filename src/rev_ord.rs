//! A wrapper that reverses the order of what it holds.

use vstd::prelude::*;

verus! {

/// Orders as `T` in reverse: the greater inner value comes first.
#[derive(PartialEq, Eq, Clone, Copy, Debug, Hash)]
pub struct RevOrd<T>(pub T);

impl<T> RevOrd<T> {
    pub fn new(value: T) -> (r: Self)
        ensures
            r.0 == value,
    {
        RevOrd(value)
    }

    pub fn into_inner(self) -> (r: T)
        ensures
            r == self.0,
    {
        self.0
    }
}

impl RevOrd<usize> {
    /// `self < o` in the reversed order.
    pub fn lt(&self, o: &Self) -> (r: bool)
        ensures
            r == (o.0 < self.0),
    {
        o.0 < self.0
    }

    /// `self <= o` in the reversed order.
    pub fn le(&self, o: &Self) -> (r: bool)
        ensures
            r == (o.0 <= self.0),
    {
        o.0 <= self.0
    }

    /// `self > o` in the reversed order.
    pub fn gt(&self, o: &Self) -> (r: bool)
        ensures
            r == (o.0 > self.0),
    {
        o.0 > self.0
    }

    /// `self >= o` in the reversed order.
    pub fn ge(&self, o: &Self) -> (r: bool)
        ensures
            r == (o.0 >= self.0),
    {
        o.0 >= self.0
    }

    /// The lesser of the two in the reversed order: the one whose inner
    /// value is greater.
    pub fn min(self, o: Self) -> (r: Self)
        ensures
            r.0 == if self.0 >= o.0 {
                self.0
            } else {
                o.0
            },
    {
        if self.0 >= o.0 {
            self
        } else {
            o
        }
    }

    /// The greater of the two in the reversed order: the one whose inner
    /// value is lesser.
    pub fn max(self, o: Self) -> (r: Self)
        ensures
            r.0 == if self.0 <= o.0 {
                self.0
            } else {
                o.0
            },
    {
        if self.0 <= o.0 {
            self
        } else {
            o
        }
    }
}

} // verus!
