//! An optional index that spends no space on its tag: `usize::MAX` stands
//! for "none".

use vstd::prelude::*;

verus! {

/// `None` or an index below `usize::MAX`, held in one `usize`.
#[derive(PartialEq, Eq, Structural, Clone, Copy, Debug, Hash)]
pub struct NonMax(usize);

impl View for NonMax {
    type V = Option<usize>;

    closed spec fn view(&self) -> Option<usize> {
        if self.0 == usize::MAX {
            None
        } else {
            Some(self.0)
        }
    }
}

impl NonMax {
    /// A `NonMax` never holds `usize::MAX` itself.
    pub proof fn lemma_never_max(&self)
        ensures
            self@ != Some(usize::MAX),
    {
    }

    pub fn none() -> (r: Self)
        ensures
            r@ == None::<usize>,
    {
        NonMax(usize::MAX)
    }

    /// Holds `n`, which must not be `usize::MAX`.
    pub fn some(n: usize) -> (r: Self)
        requires
            n != usize::MAX,
        ensures
            r@ == Some(n),
    {
        NonMax(n)
    }

    /// Takes the index out, leaving none.
    pub fn take(&mut self) -> (r: Option<usize>)
        ensures
            r == old(self)@,
            final(self)@ == None::<usize>,
    {
        let r = self.get();
        *self = Self::none();
        r
    }

    /// Puts `v` in, handing back what was there.
    pub fn replace(&mut self, v: usize) -> (r: Option<usize>)
        requires
            v != usize::MAX,
        ensures
            r == old(self)@,
            final(self)@ == Some(v),
    {
        let r = self.get();
        *self = Self::some(v);
        r
    }

    pub fn is_some(&self) -> (r: bool)
        ensures
            r == self@ is Some,
            self@ != Some(usize::MAX),
    {
        self.0 != usize::MAX
    }

    pub fn is_none(&self) -> (r: bool)
        ensures
            r == self@ is None,
            self@ != Some(usize::MAX),
    {
        self.0 == usize::MAX
    }

    pub fn get(&self) -> (r: Option<usize>)
        ensures
            r == self@,
            r != Some(usize::MAX),
    {
        if self.is_none() {
            None
        } else {
            Some(self.0)
        }
    }

    /// The stored word: the index, or `usize::MAX` for none.
    pub fn raw(&self) -> (r: usize)
        ensures
            r == match self@ {
                Some(n) => n,
                None => usize::MAX,
            },
            self@ != Some(usize::MAX),
    {
        self.0
    }

    /// The index, which must be there.
    pub fn unwrap(self) -> (r: usize)
        requires
            self@ is Some,
        ensures
            self@ == Some(r),
    {
        self.0
    }

    /// Holds what `v` holds; `v` must not hold `usize::MAX`.
    pub fn from_option(v: Option<usize>) -> (r: Self)
        requires
            v != Some(usize::MAX),
        ensures
            r@ == v,
    {
        match v {
            None => Self::none(),
            Some(n) => Self::some(n),
        }
    }
}

impl Default for NonMax {
    fn default() -> (r: Self)
        ensures
            r@ == None::<usize>,
    {
        Self::none()
    }
}

} // verus!
