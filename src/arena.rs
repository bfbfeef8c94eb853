//! Dense, index-addressed storage with slot reuse and explicit compaction.

use vstd::prelude::*;
use crate::free_set::{FreeSet, MinFreeSet};

verus! {

/// An arena: a vector of slots, each either live or free.
///
/// Freed slots are tracked by `F` and are handed out again by `allocate`, so
/// an index stays valid, and keeps denoting the same value, until it is
/// freed. A free slot keeps its old content, which callers must not rely on.
pub struct AllocVec<T, F = MinFreeSet> {
    data: Vec<T>,
    free: F,
}

impl<T, F: FreeSet> AllocVec<T, F> {
    /// Content of every slot, live or free.
    pub closed spec fn slots(&self) -> Seq<T> {
        self.data@
    }

    /// The tracker of the free slots.
    pub closed spec fn free_set(&self) -> F {
        self.free
    }

    /// The indices of the free slots.
    pub open spec fn free_indices(&self) -> Set<usize> {
        self.free_set().free_indices()
    }

    pub closed spec fn wf(&self) -> bool {
        &&& self.free.wf()
        &&& self.free.free_indices().finite()
        &&& self.data@.len() <= usize::MAX
        &&& forall|i: usize| #[trigger] self.free.free_indices().contains(i) ==> i < self.data@.len()
    }

    /// `allocate` may reuse slot `i` next: the free set's policy.
    pub open spec fn preferred(&self, i: usize) -> bool {
        self.free_set().preferred(i)
    }

    pub open spec fn is_live(&self, i: int) -> bool {
        0 <= i < self.slots().len() && !self.free_indices().contains(i as usize)
    }

    /// Number of live slots.
    pub open spec fn live_count(&self) -> int {
        self.slots().len() - self.free_indices().len()
    }

    /// The free indices of a well-formed arena are slots of it.
    pub proof fn lemma_free_bounded(&self)
        requires
            self.wf(),
        ensures
            self.free_indices().finite(),
            forall|i: usize| #[trigger] self.free_indices().contains(i) ==> i < self.slots().len(),
            self.free_indices().len() <= self.slots().len(),
    {
        let n = self.data@.len();
        let range = Set::new(|i: usize| i < n);
        assert(self.free_indices().subset_of(range));
        lemma_usize_range_len(n);
        vstd::set_lib::lemma_len_subset(self.free_indices(), range);
    }

    /// The live slots of a well-formed arena number `live_count()`.
    pub proof fn lemma_live_count(&self)
        requires
            self.wf(),
        ensures
            Set::new(|i: usize| self.is_live(i as int)).finite(),
            Set::new(|i: usize| self.is_live(i as int)).len() == self.live_count(),
    {
        self.lemma_free_bounded();
        let n = self.data@.len();
        let range = Set::new(|i: usize| i < n);
        lemma_usize_range_len(n);
        let live = Set::new(|i: usize| self.is_live(i as int));
        assert(live =~= range.difference(self.free_indices()));
        assert(range.intersect(self.free_indices()) =~= self.free_indices());
        vstd::set_lib::lemma_set_difference_len(range, self.free_indices());
    }

    pub fn new() -> (r: Self)
        ensures
            r.wf(),
            r.slots() == Seq::<T>::empty(),
            r.free_indices() == Set::<usize>::empty(),
    {
        AllocVec { data: Vec::new(), free: F::empty() }
    }

    /// Stores `value` in a free slot, the one `F` prefers, or in a new slot
    /// at the end when none is free, and returns its index.
    pub fn allocate(&mut self, value: T) -> (r: usize)
        requires
            old(self).wf(),
            old(self).slots().len() < usize::MAX,
        ensures
            final(self).wf(),
            !old(self).is_live(r as int),
            final(self).is_live(r as int),
            final(self).slots() == if r < old(self).slots().len() {
                old(self).slots().update(r as int, value)
            } else {
                old(self).slots().push(value)
            },
            final(self).free_indices() == old(self).free_indices().remove(r),
            old(self).free_indices().is_empty() <==> r == old(self).slots().len(),
            !old(self).free_indices().is_empty() ==> old(self).preferred(r),
            final(self).live_count() == old(self).live_count() + 1,
    {
        proof {
            self.lemma_free_bounded();
        }
        match self.free.pop() {
            Some(id) => {
                self.data.set(id, value);
                proof {
                    assert(old(self).free_indices().remove(id).len() + 1 == old(self).free_indices().len());
                    assert(self.free_indices().finite());
                }
                id
            },
            None => {
                let id = self.data.len();
                self.data.push(value);
                proof {
                    assert(!old(self).free_indices().contains(id));
                    assert(old(self).free_indices().remove(id) =~= old(self).free_indices());
                }
                id
            },
        }
    }

    /// True when no slot is live.
    pub fn is_empty(&self) -> (r: bool)
        requires
            self.wf(),
        ensures
            r == (self.live_count() == 0),
    {
        proof {
            self.lemma_free_bounded();
        }
        self.data.len() == self.free.len()
    }

    /// Marks the live slot `index` as free. Its content stays in place until
    /// the slot is allocated again.
    pub fn free(&mut self, index: usize)
        requires
            old(self).wf(),
            old(self).is_live(index as int),
        ensures
            final(self).wf(),
            final(self).slots() == old(self).slots(),
            final(self).free_indices() == old(self).free_indices().insert(index),
            final(self).live_count() == old(self).live_count() - 1,
    {
        self.free.push(index);
    }

    /// Every slot, live or free.
    pub fn raw(&self) -> (r: &[T])
        ensures
            r@ == self.slots(),
    {
        self.data.as_slice()
    }

    /// Number of slots, live or free.
    pub fn raw_len(&self) -> (r: usize)
        ensures
            r == self.slots().len(),
    {
        self.data.len()
    }

    /// The content of a slot that the caller knows to be live.
    pub fn get_unchecked(&self, index: usize) -> (r: &T)
        requires
            self.is_live(index as int),
        ensures
            *r == self.slots()[index as int],
    {
        &self.data[index]
    }

    /// The content of a slot that the caller knows to be live, for writing.
    pub fn get_unchecked_mut(&mut self, index: usize) -> (r: &mut T)
        requires
            old(self).is_live(index as int),
        ensures
            *r == old(self).slots()[index as int],
            final(self).slots() == old(self).slots().update(index as int, *final(r)),
            final(self).free_indices() == old(self).free_indices(),
            final(self).wf() == old(self).wf(),
    {
        &mut self.data[index]
    }

    /// The content of slot `index` for writing, or `None` past the last
    /// slot. A free slot in range yields its stale content.
    pub fn get_mut(&mut self, index: usize) -> (r: Option<&mut T>)
        ensures
            final(self).free_indices() == old(self).free_indices(),
            final(self).wf() == old(self).wf(),
            match r {
                Some(e) => {
                    &&& index < old(self).slots().len()
                    &&& *e == old(self).slots()[index as int]
                    &&& final(self).slots() == old(self).slots().update(index as int, *final(e))
                },
                None => index >= old(self).slots().len() && final(self).slots() == old(self).slots(),
            },
    {
        if index < self.data.len() {
            Some(&mut self.data[index])
        } else {
            None
        }
    }

    /// Number of live slots.
    pub fn count(&self) -> (r: usize)
        requires
            self.wf(),
        ensures
            r == self.live_count(),
    {
        proof {
            self.lemma_free_bounded();
        }
        self.data.len() - self.free.len()
    }

    /// The content of slot `index`, or `None` past the last slot. A free slot
    /// in range yields its stale content.
    pub fn get(&self, index: usize) -> (r: Option<&T>)
        ensures
            match r {
                Some(v) => index < self.slots().len() && *v == self.slots()[index as int],
                None => index >= self.slots().len(),
            },
    {
        if index < self.data.len() {
            Some(&self.data[index])
        } else {
            None
        }
    }
}


impl<T, F: FreeSet> AllocVec<T, F> {
    /// `new_slots` is the compaction of `old_slots` whose free indices are
    /// `free`: slot `i` of the result came from slot `src[i]`, each live slot
    /// of the old arena lands in exactly one slot of the result, live slots
    /// already below the new length stay in place, and each one that moved
    /// went through `relocate(value, old_index, new_index)`, which is what
    /// the result holds.
    pub open spec fn compacted<R: Fn(T, usize, usize) -> T>(
        old_slots: Seq<T>,
        free: Set<usize>,
        new_slots: Seq<T>,
        src: Seq<usize>,
        relocate: R,
    ) -> bool {
        &&& src.len() == new_slots.len()
        &&& forall|i: int|
            0 <= i < src.len() ==> #[trigger] src[i] < old_slots.len() && !free.contains(src[i])
        &&& forall|a: int, b: int| 0 <= a < b < src.len() ==> src[a] != src[b]
        &&& forall|j: usize|
            j < old_slots.len() && !free.contains(j) ==> exists|i: int|
                0 <= i < src.len() && #[trigger] src[i] == j
        &&& forall|i: int|
            0 <= i < src.len() ==> (#[trigger] src[i] != i <==> free.contains(i as usize))
        &&& forall|i: int|
            0 <= i < src.len() ==> if src[i] == i {
                #[trigger] new_slots[i] == old_slots[i]
            } else {
                relocate.ensures((old_slots[src[i] as int], src[i], i as usize), new_slots[i])
            }
    }

    /// Moves live slots into the holes left by freed ones until the live
    /// slots are exactly `0 .. count()`, then drops the rest and forgets all
    /// free indices.
    ///
    /// Holes are filled from the lowest up, each with the highest live slot
    /// left; `relocate(value, old_index, new_index)` is called once for each
    /// moved value, and what it returns is stored at `new_index`.
    pub fn defragment<R: Fn(T, usize, usize) -> T>(&mut self, relocate: R)
        requires
            old(self).wf(),
            forall|v: T, a: usize, b: usize| #[trigger] relocate.requires((v, a, b)),
        ensures
            final(self).wf(),
            final(self).free_indices().is_empty(),
            final(self).slots().len() == old(self).live_count(),
            exists|src: Seq<usize>|
                Self::compacted(
                    old(self).slots(),
                    old(self).free_indices(),
                    final(self).slots(),
                    src,
                    relocate,
                ),
    {
        proof {
            self.lemma_free_bounded();
        }
        let ghost orig = self.data@;
        let ghost free0 = self.free.free_indices();
        let n = self.data.len();
        let k = self.free.len();
        let c = n - k;

        let mut mask: Vec<bool> = Vec::new();
        while mask.len() < n
            invariant
                mask@.len() <= n,
                forall|i: int| 0 <= i < mask@.len() ==> !mask@[i],
            decreases n - mask@.len(),
        {
            mask.push(false);
        }
        proof {
            lemma_count_none(mask@, 0, n as int);
        }

        let mut t: usize = 0;
        while t < k
            invariant
                self.wf(),
                self.data@ == orig,
                t <= k,
                mask@.len() == n,
                self.free.free_indices().len() == k - t,
                self.free.free_indices().subset_of(free0),
                free0.len() == k,
                forall|i: usize| #[trigger] free0.contains(i) ==> i < n,
                forall|i: int|
                    0 <= i < n ==> (mask@[i] <==> (free0.contains(i as usize)
                        && !self.free.free_indices().contains(i as usize))),
                count_marked(mask@, 0, n as int) == t,
            decreases k - t,
        {
            let i = match self.free.pop() {
                Some(i) => i,
                None => {
                    proof {
                        assert(self.free.free_indices().len() == 0);
                    }
                    0
                },
            };
            proof {
                assert(!mask@[i as int]);
                lemma_count_update(mask@, i as int, 0, n as int);
            }
            mask.set(i, true);
            t = t + 1;
        }
        proof {
            assert(self.free.free_indices().is_empty());
            lemma_count_split(mask@, 0, c as int, n as int);
            lemma_count_bound(mask@, c as int, n as int);
        }

        let ghost mut src: Seq<usize> = Seq::empty();
        let mut lo: usize = 0;
        let mut hi: usize = n;
        while lo < c
            invariant
                self.free.wf(),
                self.free.free_indices().is_empty(),
                forall|v: T, a: usize, b: usize| #[trigger] relocate.requires((v, a, b)),
                mask@.len() == n,
                forall|i: int| 0 <= i < n ==> (mask@[i] <==> free0.contains(i as usize)),
                c + k == n,
                count_marked(mask@, 0, n as int) == k,
                lo <= c <= hi <= n,
                self.data@.len() == hi,
                count_marked(mask@, lo as int, c as int) + count_marked(mask@, c as int, hi as int)
                    == hi - c,
                src.len() == lo,
                orig.len() == n,
                forall|i: int| 0 <= i < lo && !mask@[i] ==> src[i] == i,
                forall|i: int| 0 <= i < lo && !mask@[i] ==> self.data@[i] == orig[i],
                forall|i: int|
                    0 <= i < lo && #[trigger] mask@[i] ==> hi <= src[i] < n && !mask@[src[i] as int]
                        && relocate.ensures(
                        (orig[src[i] as int], src[i], i as usize),
                        self.data@[i],
                    ),
                forall|i: int| lo <= i < hi ==> self.data@[i] == orig[i],
                forall|a: int, b: int| 0 <= a < b < lo ==> src[a] != src[b],
                forall|j: int|
                    hi <= j < n && !mask@[j] ==> exists|i: int| 0 <= i < lo && src[i] == j,
            decreases c - lo,
        {
            if !mask[lo] {
                proof {
                    let old_src = src;
                    src = src.push(lo);
                    assert(count_marked(mask@, lo as int, lo as int) == 0);
                    assert(count_marked(mask@, lo as int, c as int) == count_marked(
                        mask@,
                        lo + 1,
                        c as int,
                    )) by {
                        lemma_count_split(mask@, lo as int, lo + 1, c as int);
                    }
                    assert forall|j: int| hi <= j < n && !mask@[j] implies exists|i: int|
                        0 <= i < lo + 1 && src[i] == j by {
                        let i0 = choose|i: int| 0 <= i < lo && old_src[i] == j;
                        assert(src[i0] == j);
                    }
                }
                lo = lo + 1;
            } else {
                proof {
                    assert(count_marked(mask@, lo as int, lo as int) == 0);
                    lemma_count_split(mask@, lo as int, lo + 1, c as int);
                }
                while mask[hi - 1]
                    invariant
                        self.free.wf(),
                        self.free.free_indices().is_empty(),
                        forall|v: T, a: usize, b: usize| #[trigger] relocate.requires((v, a, b)),
                        orig.len() == n,
                        src.len() == lo,
                        lo < c <= hi <= n,
                        mask@.len() == n,
                        mask@[lo as int],
                        self.data@.len() == hi,
                        count_marked(mask@, lo + 1, c as int) + 1 + count_marked(
                            mask@,
                            c as int,
                            hi as int,
                        ) == hi - c,
                        forall|i: int|
                            0 <= i < lo && #[trigger] mask@[i] ==> hi <= src[i] < n,
                        forall|i: int|
                            0 <= i < lo && #[trigger] mask@[i] ==> relocate.ensures(
                                (orig[src[i] as int], src[i], i as usize),
                                self.data@[i],
                            ),
                        forall|i: int| 0 <= i < lo && !mask@[i] ==> self.data@[i] == orig[i],
                        forall|i: int| lo <= i < hi ==> self.data@[i] == orig[i],
                        forall|j: int|
                            hi <= j < n && !mask@[j] ==> exists|i: int| 0 <= i < lo && src[i] == j,
                    decreases hi,
                {
                    proof {
                        lemma_count_bound(mask@, lo + 1, c as int);
                        lemma_count_bound(mask@, c as int, (hi - 1) as int);
                    }
                    self.data.pop();
                    hi = hi - 1;
                }
                proof {
                    lemma_count_bound(mask@, lo + 1, c as int);
                    lemma_count_bound(mask@, c as int, (hi - 1) as int);
                }
                let value = self.data.pop().unwrap();
                hi = hi - 1;
                assert(relocate.requires((value, hi, lo)));
                let moved = relocate(value, hi, lo);
                self.data.set(lo, moved);
                proof {
                    let old_src = src;
                    src = src.push(hi);
                    assert forall|j: int| hi <= j < n && !mask@[j] implies exists|i: int|
                        0 <= i < lo + 1 && src[i] == j by {
                        if j == hi {
                            assert(src[lo as int] == j);
                        } else {
                            let i0 = choose|i: int| 0 <= i < lo && old_src[i] == j;
                            assert(src[i0] == j);
                        }
                    }
                    assert forall|i: int|
                        0 <= i < lo + 1 && #[trigger] mask@[i] implies hi <= src[i] < n
                            && !mask@[src[i] as int] && relocate.ensures(
                            (orig[src[i] as int], src[i], i as usize),
                            self.data@[i],
                        ) by {
                        if i < lo {
                            assert(old_src[i] == src[i]);
                        }
                    }
                }
                lo = lo + 1;
            }
        }
        proof {
            lemma_count_all(mask@, c as int, hi as int);
        }
        self.data.truncate(c);
        proof {
            let fin = self.data@;
            assert(Self::compacted(orig, free0, fin, src, relocate)) by {
                assert forall|j: usize| j < orig.len() && !free0.contains(j) implies exists|i: int|
                    0 <= i < src.len() && #[trigger] src[i] == j by {
                    if (j as int) < lo {
                        assert(src[j as int] == j);
                    } else {
                        assert(!mask@[j as int]);
                    }
                }
                assert forall|i: int| 0 <= i < src.len() implies (#[trigger] src[i] != i <==> free0.contains(i as usize)) by {
                    if mask@[i] {
                        assert(src[i] >= hi);
                    }
                }
            }
            assert(self.free.free_indices().is_empty());
            assert(old(self).slots() == orig);
            assert(old(self).free_indices() == free0);
            assert(self.slots() == fin);
            assert(exists|w: Seq<usize>| Self::compacted(orig, free0, fin, w, relocate));
        }
    }
}

/// Number of `true` entries of `m` in `lo .. hi`.
pub open spec fn count_marked(m: Seq<bool>, lo: int, hi: int) -> nat
    decreases hi - lo,
{
    if hi <= lo {
        0
    } else {
        count_marked(m, lo, hi - 1) + if m[hi - 1] {
            1nat
        } else {
            0nat
        }
    }
}

proof fn lemma_count_split(m: Seq<bool>, a: int, b: int, c: int)
    requires
        a <= b <= c,
    ensures
        count_marked(m, a, c) == count_marked(m, a, b) + count_marked(m, b, c),
    decreases c - b,
{
    if c > b {
        lemma_count_split(m, a, b, c - 1);
    }
}

proof fn lemma_count_bound(m: Seq<bool>, a: int, b: int)
    ensures
        count_marked(m, a, b) <= if b >= a {
            b - a
        } else {
            0
        },
        b > a && count_marked(m, a, b) < b - a ==> count_marked(m, a, b - 1) < b - 1 - a
            || !m[b - 1],
    decreases b - a,
{
    if b > a {
        lemma_count_bound(m, a, b - 1);
    }
}

proof fn lemma_count_none(m: Seq<bool>, a: int, b: int)
    requires
        forall|i: int| a <= i < b ==> !m[i],
    ensures
        count_marked(m, a, b) == 0,
    decreases b - a,
{
    if b > a {
        lemma_count_none(m, a, b - 1);
    }
}

/// When every entry of `a .. b` is counted, every one is `true`.
proof fn lemma_count_all(m: Seq<bool>, a: int, b: int)
    requires
        a <= b,
        count_marked(m, a, b) == b - a,
    ensures
        forall|i: int| a <= i < b ==> m[i],
    decreases b - a,
{
    if b > a {
        lemma_count_bound(m, a, b - 1);
        lemma_count_all(m, a, b - 1);
    }
}

proof fn lemma_count_update(m: Seq<bool>, i: int, a: int, b: int)
    requires
        0 <= a <= i < b,
        b <= m.len(),
        !m[i],
    ensures
        count_marked(m.update(i, true), a, b) == count_marked(m, a, b) + 1,
    decreases b - a,
{
    if b - 1 > i {
        lemma_count_update(m, i, a, b - 1);
    } else {
        lemma_count_same(m, m.update(i, true), a, i);
    }
}

proof fn lemma_count_same(m: Seq<bool>, m2: Seq<bool>, a: int, b: int)
    requires
        forall|j: int| a <= j < b ==> m[j] == m2[j],
    ensures
        count_marked(m, a, b) == count_marked(m2, a, b),
    decreases b - a,
{
    if b > a {
        lemma_count_same(m, m2, a, b - 1);
    }
}

/// `{ i: usize | i < n }` has `n` elements.
proof fn lemma_usize_range_len(n: nat)
    requires
        n <= usize::MAX + 1,
    ensures
        Set::new(|i: usize| i < n).finite(),
        Set::new(|i: usize| i < n).len() == n,
    decreases n,
{
    if n == 0 {
        assert(Set::new(|i: usize| i < n) =~= Set::<usize>::empty());
    } else {
        lemma_usize_range_len((n - 1) as nat);
        let m = (n - 1) as usize;
        assert(Set::new(|i: usize| i < n) =~= Set::new(|i: usize| i < (n - 1) as nat).insert(m));
    }
}

} // verus!
