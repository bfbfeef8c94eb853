//! Operations shared by `Vec` and `CVec`.

use vstd::prelude::*;
use vstd::multiset::Multiset;
use crate::cvec::CVec;

verus! {

/// A growable sequence that can take elements from elsewhere.
pub trait ExtendExt<T>: Sized {
    spec fn elems(&self) -> Seq<T>;

    /// Appends copies of the elements of `s`.
    fn extend_copy_slice(&mut self, s: &[T])
        where
            T: Copy,
        ensures
            final(self).elems() == old(self).elems() + s@,
    ;

    /// Moves the elements of `rhs` to the end, leaving it empty.
    fn extend_append_vec(&mut self, rhs: &mut Vec<T>)
        ensures
            final(self).elems() == old(self).elems() + old(rhs)@,
            final(rhs)@ == Seq::<T>::empty(),
    ;

    /// Moves the elements of `rhs` to the end, leaving it empty.
    fn extend_append_cvec(&mut self, rhs: &mut CVec<T>)
        ensures
            final(self).elems() == old(self).elems() + old(rhs)@,
            final(rhs)@ == Seq::<T>::empty(),
    ;
}

/// A sequence that can be emptied.
pub trait VecTrait<T>: ExtendExt<T> {
    fn clear(&mut self)
        ensures
            final(self).elems() == Seq::<T>::empty(),
    ;
}

/// A sequence that can be emptied and popped, and filtered in place.
pub trait VecExt<T>: VecTrait<T> {
    /// Keeps the elements that `retain` approves and drops the others; the
    /// order of the kept elements may change, as the last element fills each
    /// gap.
    fn retain_unstable<F: Fn(&T) -> bool>(&mut self, retain: F)
        requires
            forall|x: &T| #[trigger] retain.requires((x,)),
        ensures
            forall|i: int|
                0 <= i < final(self).elems().len() ==> #[trigger] retain.ensures(
                    (&final(self).elems()[i],),
                    true,
                ),
            exists|dropped: Multiset<T>|
                {
                    &&& #[trigger] final(self).elems().to_multiset().add(dropped)
                        == old(self).elems().to_multiset()
                    &&& forall|x: T| #[trigger] dropped.contains(x) ==> retain.ensures((&x,), false)
                },
    ;

    fn pop(&mut self) -> (r: Option<T>)
        ensures
            old(self).elems().len() == 0 ==> r == None::<T>,
            old(self).elems().len() == 0 ==> final(self).elems() == old(self).elems(),
            old(self).elems().len() > 0 ==> r == Some(old(self).elems().last()),
            old(self).elems().len() > 0 ==> final(self).elems() == old(self).elems().drop_last(),
    ;
}

impl<T> ExtendExt<T> for Vec<T> {
    open spec fn elems(&self) -> Seq<T> {
        self@
    }

    fn extend_copy_slice(&mut self, s: &[T])
        where
            T: Copy,
    {
        let mut i: usize = 0;
        while i < s.len()
            invariant
                i <= s@.len(),
                self@ == old(self)@ + s@.subrange(0, i as int),
            decreases s@.len() - i,
        {
            self.push(s[i]);
            i = i + 1;
            proof {
                assert(self@ =~= old(self)@ + s@.subrange(0, i as int));
            }
        }
        proof {
            assert(s@.subrange(0, s@.len() as int) =~= s@);
        }
    }

    fn extend_append_vec(&mut self, rhs: &mut Vec<T>) {
        self.append(rhs);
    }

    fn extend_append_cvec(&mut self, rhs: &mut CVec<T>) {
        let mut it = rhs.drain();
        let ghost all = it@;
        while !it.is_empty()
            invariant
                self@ + it@ == old(self)@ + all,
            decreases it@.len(),
        {
            let ghost before = it@;
            match it.next() {
                Some(x) => {
                    self.push(x);
                    proof {
                        assert(before =~= seq![x] + it@);
                        assert(self@ + it@ =~= old(self)@ + all);
                    }
                },
                None => {},
            }
        }
        proof {
            assert(self@ + it@ =~= self@);
        }
    }
}

impl<T> VecTrait<T> for Vec<T> {
    fn clear(&mut self) {
        Vec::clear(self);
    }
}

/// Moving the last element into position `i` drops the element that was
/// there, as a multiset.
proof fn lemma_fill_gap<T>(s: Seq<T>, i: int)
    requires
        0 <= i < s.len() - 1,
    ensures
        s.drop_last().update(i, s.last()).to_multiset() =~= s.to_multiset().remove(s[i]),
{
    let last = s.last();
    let x = s[i];
    let dl = s.drop_last();
    let t = dl.update(i, last);
    dl.to_multiset_ensures();
    t.to_multiset_ensures();
    let a = dl.to_multiset();
    assert(dl.push(last) =~= s);
    assert(s.to_multiset() =~= a.insert(last));
    assert(t.remove(i) =~= dl.remove(i));
    assert(dl[i] == x);
    assert(t[i] == last);
    assert(t.remove(i).to_multiset() =~= t.to_multiset().remove(t[i]));
    assert(dl.remove(i).to_multiset() =~= a.remove(dl[i]));
    assert(t.to_multiset().remove(last) =~= a.remove(x));
    assert(t.contains(last));
    assert(t.to_multiset().count(last) > 0);
    assert(t.to_multiset() =~= t.to_multiset().remove(last).insert(last));
    assert(dl.contains(x));
    assert(a.count(x) > 0);
    assert(a.remove(x).insert(last) =~= a.insert(last).remove(x));
}

impl<T> VecExt<T> for Vec<T> {
    fn retain_unstable<F: Fn(&T) -> bool>(&mut self, retain: F) {
        let ghost mut dropped: Multiset<T> = Multiset::empty();
        let mut index: usize = 0;
        proof {
            assert(self@.to_multiset().add(dropped) =~= old(self)@.to_multiset());
        }
        while index < self.len()
            invariant
                forall|x: &T| #[trigger] retain.requires((x,)),
                index <= self@.len(),
                forall|i: int| 0 <= i < index ==> #[trigger] retain.ensures((&self@[i],), true),
                self@.to_multiset().add(dropped) == old(self)@.to_multiset(),
                forall|x: T| #[trigger] dropped.contains(x) ==> retain.ensures((&x,), false),
            decreases self@.len() - index,
        {
            let keep = retain(&self[index]);
            if keep {
                index = index + 1;
            } else {
                let ghost s = self@;
                let ghost x = self@[index as int];
                let last = self.pop().unwrap();
                proof {
                    s.to_multiset_ensures();
                    assert(s.contains(x));
                    assert(s.to_multiset().count(x) > 0);
                }
                if index < self.len() {
                    self.set(index, last);
                    proof {
                        lemma_fill_gap(s, index as int);
                        assert(self@ == s.drop_last().update(index as int, s.last()));
                        assert(self@.to_multiset().add(dropped.insert(x)) =~= s.to_multiset().add(
                            dropped,
                        ));
                    }
                } else {
                    proof {
                        assert(s =~= self@.push(x));
                        self@.to_multiset_ensures();
                        assert(self@.to_multiset().add(dropped.insert(x)) =~= s.to_multiset().add(
                            dropped,
                        ));
                    }
                }
                proof {
                    dropped = dropped.insert(x);
                }
            }
        }
        proof {
            assert(self.elems().to_multiset().add(dropped) == old(self).elems().to_multiset());
        }
    }

    fn pop(&mut self) -> (r: Option<T>) {
        Vec::pop(self)
    }
}

} // verus!
