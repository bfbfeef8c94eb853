//! A vector whose capacity is always the power of two at or above its
//! length, and an iterator that drains it.

use vstd::prelude::*;
use crate::vec_ext::{ExtendExt, VecExt, VecTrait};

verus! {

/// A compact vector: it never holds more than twice the room its elements
/// need.
pub struct CVec<T> {
    items: Vec<T>,
}

/// The capacity of a compact vector of `len` elements: 0 when empty, else
/// the least power of two at or above `len`.
pub open spec fn len_cap(len: nat) -> nat {
    if len == 0 {
        0
    } else {
        least_pow2_from(1, len)
    }
}

/// The least power of two `c * 2^k` (for the least `k`) at or above `len`.
pub open spec fn least_pow2_from(c: nat, len: nat) -> nat
    decreases (if c >= len {
        0
    } else {
        len - c
    }),
{
    if c == 0 || c >= len {
        c
    } else {
        least_pow2_from(c * 2, len)
    }
}

impl<T> View for CVec<T> {
    type V = Seq<T>;

    closed spec fn view(&self) -> Seq<T> {
        self.items@
    }
}

impl<T> CVec<T> {
    pub fn new() -> (r: Self)
        ensures
            r@ == Seq::<T>::empty(),
    {
        CVec { items: Vec::new() }
    }

    /// Takes the elements of `items`, in order.
    pub fn from_trusted_len(items: Vec<T>) -> (r: Self)
        ensures
            r@ == items@,
    {
        CVec { items }
    }

    /// Copies the elements of `s`, in order.
    pub fn from_copy(s: &[T]) -> (r: Self)
        where
            T: Copy,
        ensures
            r@ == s@,
    {
        let mut items: Vec<T> = Vec::new();
        let mut i: usize = 0;
        while i < s.len()
            invariant
                i <= s@.len(),
                items@ == s@.subrange(0, i as int),
            decreases s@.len() - i,
        {
            items.push(s[i]);
            i = i + 1;
            proof {
                assert(items@ =~= s@.subrange(0, i as int));
            }
        }
        proof {
            assert(items@ =~= s@);
        }
        CVec { items }
    }

    pub fn len(&self) -> (r: usize)
        ensures
            r == self@.len(),
    {
        self.items.len()
    }

    /// The room the elements occupy: see `len_cap`.
    pub fn cap(&self) -> (r: usize)
        requires
            self@.len() <= usize::MAX / 2 + 1,
        ensures
            r == len_cap(self@.len()),
    {
        let len = self.items.len();
        if len == 0 {
            return 0;
        }
        let mut c: usize = 1;
        while c < len
            invariant
                1 <= c,
                c < len ==> c <= usize::MAX / 2,
                least_pow2_from(c as nat, len as nat) == least_pow2_from(1, len as nat),
                len <= usize::MAX / 2 + 1,
            decreases (if c >= len {
                0
            } else {
                len - c
            }),
        {
            proof {
                assert(c * 2 <= usize::MAX);
            }
            c = c * 2;
            proof {
                if c < len {
                    assert(c <= usize::MAX / 2);
                }
            }
        }
        c
    }

    pub fn push(&mut self, elem: T)
        ensures
            final(self)@ == old(self)@.push(elem),
    {
        self.items.push(elem);
    }

    pub fn pop(&mut self) -> (r: Option<T>)
        ensures
            old(self)@.len() == 0 ==> r == None::<T> && final(self)@ == old(self)@,
            old(self)@.len() > 0 ==> r == Some(old(self)@.last()) && final(self)@ == old(self)@.drop_last(),
    {
        self.items.pop()
    }

    /// Grows to `to` elements with values from `with`, called once for each
    /// new element, in order, or shrinks to `to`.
    pub fn resize_with<F: Fn() -> T>(&mut self, to: usize, with: F)
        requires
            with.requires(()),
        ensures
            final(self)@.len() == to,
            forall|i: int| 0 <= i < to && i < old(self)@.len() ==> final(self)@[i] == old(self)@[i],
            forall|i: int| old(self)@.len() <= i < to ==> #[trigger] with.ensures((), final(self)@[i]),
    {
        if to <= self.items.len() {
            self.items.truncate(to);
        } else {
            let ghost start = self.items@;
            while self.items.len() < to
                invariant
                    with.requires(()),
                    start.len() <= self.items@.len() <= to,
                    forall|i: int| 0 <= i < start.len() ==> self.items@[i] == start[i],
                    forall|i: int|
                        start.len() <= i < self.items@.len() ==> #[trigger] with.ensures(
                            (),
                            self.items@[i],
                        ),
                decreases to - self.items@.len(),
            {
                let v = with();
                self.items.push(v);
            }
        }
    }

    /// Grows to `to` elements with copies of `value`, or shrinks to `to`.
    pub fn resize(&mut self, to: usize, value: T)
        where
            T: Copy,
        ensures
            final(self)@.len() == to,
            forall|i: int| 0 <= i < to && i < old(self)@.len() ==> final(self)@[i] == old(self)@[i],
            forall|i: int| old(self)@.len() <= i < to ==> final(self)@[i] == value,
    {
        if to <= self.items.len() {
            self.items.truncate(to);
        } else {
            let ghost start = self.items@;
            while self.items.len() < to
                invariant
                    start.len() <= self.items@.len() <= to,
                    forall|i: int| 0 <= i < start.len() ==> self.items@[i] == start[i],
                    forall|i: int| start.len() <= i < self.items@.len() ==> self.items@[i] == value,
                decreases to - self.items@.len(),
            {
                self.items.push(value);
            }
        }
    }

    /// Room is made as elements come; asking for more ahead changes nothing.
    pub fn reserve(&self, additional: usize) {
    }

    /// Takes every element out, leaving the vector empty; the iterator
    /// yields them in order.
    pub fn drain(&mut self) -> (r: IntoIter<T>)
        ensures
            final(self)@ == Seq::<T>::empty(),
            r@ == old(self)@,
    {
        let mut reversed: Vec<T> = Vec::new();
        let ghost all = self.items@;
        while self.items.len() > 0
            invariant
                self.items@.len() + reversed@.len() == all.len(),
                self.items@ == all.subrange(0, self.items@.len() as int),
                forall|j: int|
                    0 <= j < reversed@.len() ==> reversed@[j] == all[all.len() - 1 - j],
            decreases self.items@.len(),
        {
            let ghost n = self.items@.len();
            let x = self.items.pop().unwrap();
            proof {
                assert(x == all[n - 1]);
                assert(self.items@ =~= all.subrange(0, n - 1));
            }
            reversed.push(x);
        }
        let r = IntoIter { rest: reversed };
        proof {
            assert(r@ =~= all);
        }
        r
    }

    /// Drops every element.
    pub fn clear(&mut self)
        ensures
            final(self)@ == Seq::<T>::empty(),
    {
        self.items = Vec::new();
    }

    pub fn as_slice(&self) -> (r: &[T])
        ensures
            r@ == self@,
    {
        self.items.as_slice()
    }
}

impl<T> Default for CVec<T> {
    fn default() -> (r: Self)
        ensures
            r@ == Seq::<T>::empty(),
    {
        CVec::new()
    }
}

impl<T> ExtendExt<T> for CVec<T> {
    open spec fn elems(&self) -> Seq<T> {
        self@
    }

    fn extend_copy_slice(&mut self, s: &[T])
        where
            T: Copy,
    {
        self.items.extend_copy_slice(s);
    }

    fn extend_append_vec(&mut self, rhs: &mut Vec<T>) {
        self.items.append(rhs);
    }

    fn extend_append_cvec(&mut self, rhs: &mut CVec<T>) {
        self.items.append(&mut rhs.items);
    }
}

impl<T> VecTrait<T> for CVec<T> {
    fn clear(&mut self) {
        self.items = Vec::new();
    }
}

impl<T> VecExt<T> for CVec<T> {
    fn retain_unstable<F: Fn(&T) -> bool>(&mut self, retain: F) {
        self.items.retain_unstable(retain);
        proof {
            let d = choose|d: vstd::multiset::Multiset<T>|
                {
                    &&& #[trigger] self.items.elems().to_multiset().add(d) == old(
                        self,
                    ).items.elems().to_multiset()
                    &&& forall|x: T| #[trigger] d.contains(x) ==> retain.ensures((&x,), false)
                };
            assert(self.elems().to_multiset().add(d) == old(self).elems().to_multiset());
        }
    }

    fn pop(&mut self) -> (r: Option<T>) {
        self.items.pop()
    }
}

/// The elements drained from a `CVec`, handed out front to back.
pub struct IntoIter<T> {
    /// What is left, last first.
    rest: Vec<T>,
}

impl<T> View for IntoIter<T> {
    type V = Seq<T>;

    /// What is left, in the order it comes out.
    closed spec fn view(&self) -> Seq<T> {
        Seq::new(self.rest@.len(), |i: int| self.rest@[self.rest@.len() - 1 - i])
    }
}

impl<T> IntoIter<T> {
    pub fn next(&mut self) -> (r: Option<T>)
        ensures
            old(self)@.len() == 0 ==> r == None::<T> && final(self)@ == old(self)@,
            old(self)@.len() > 0 ==> r == Some(old(self)@[0]) && final(self)@ == old(self)@.drop_first(),
    {
        let r = self.rest.pop();
        proof {
            assert(self@ =~= old(self)@.drop_first() || old(self)@.len() == 0);
            if old(self)@.len() == 0 {
                assert(self@ =~= old(self)@);
            }
        }
        r
    }

    /// How many elements are left.
    pub fn len(&self) -> (r: usize)
        ensures
            r == self@.len(),
    {
        self.rest.len()
    }

    pub fn is_empty(&self) -> (r: bool)
        ensures
            r == (self@.len() == 0),
    {
        self.rest.len() == 0
    }
}

} // verus!
