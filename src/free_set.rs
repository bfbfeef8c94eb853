//! Trackers of the free slots of an arena.

use vstd::prelude::*;

verus! {

/// A set of free slot indices.
///
/// What `pop` hands out is up to the implementation: `MinFreeSet` always
/// yields its smallest index, a `Vec<usize>` the one pushed last.
pub trait FreeSet: Sized {
    /// The representation is consistent.
    spec fn wf(&self) -> bool;

    /// The indices currently held.
    spec fn free_indices(&self) -> Set<usize>;

    /// `pop` may hand out `i` next: the policy of the set.
    spec fn preferred(&self, i: usize) -> bool;

    /// A consistent set holds finitely many indices.
    proof fn lemma_finite(&self)
        requires
            self.wf(),
        ensures
            self.free_indices().finite(),
    ;

    fn empty() -> (r: Self)
        ensures
            r.wf(),
            r.free_indices() == Set::<usize>::empty(),
    ;

    fn push(&mut self, index: usize)
        requires
            old(self).wf(),
            !old(self).free_indices().contains(index),
        ensures
            final(self).wf(),
            final(self).free_indices() == old(self).free_indices().insert(index),
    ;

    fn pop(&mut self) -> (r: Option<usize>)
        requires
            old(self).wf(),
        ensures
            final(self).wf(),
            match r {
                Some(i) => old(self).free_indices().contains(i) && old(self).preferred(i) && final(self).free_indices() == old(self).free_indices().remove(i),
                None => old(self).free_indices().is_empty() && final(self).free_indices()
                    == old(self).free_indices(),
            },
    ;

    fn len(&self) -> (r: usize)
        requires
            self.wf(),
        ensures
            r == self.free_indices().len(),
    ;
}

/// A list of free indices; `pop` returns the index pushed last.
impl FreeSet for Vec<usize> {
    open spec fn wf(&self) -> bool {
        self@.no_duplicates()
    }

    open spec fn free_indices(&self) -> Set<usize> {
        self@.to_set()
    }

    /// The index pushed last.
    open spec fn preferred(&self, i: usize) -> bool {
        self@.len() > 0 && i == self@.last()
    }

    proof fn lemma_finite(&self) {
        self@.unique_seq_to_set();
    }

    fn empty() -> (r: Self) {
        let r: Vec<usize> = Vec::new();
        proof {
            assert(r@.to_set() =~= Set::<usize>::empty());
        }
        r
    }

    fn push(&mut self, index: usize) {
        proof {
            self@.lemma_push_to_set_commute(index);
        }
        Vec::push(self, index);
        proof {
            assert forall|a: int, b: int|
                0 <= a < b < final(self)@.len() implies final(self)@[a] != final(self)@[b] by {
                if b == final(self)@.len() - 1 {
                    assert(old(self)@.contains(old(self)@[a]));
                }
            }
        }
    }

    fn pop(&mut self) -> (r: Option<usize>) {
        let ghost before = self@;
        let r = Vec::pop(self);
        proof {
            match r {
                Some(i) => {
                    assert(before =~= self@.push(i));
                    self@.lemma_push_to_set_commute(i);
                    assert(!self@.contains(i)) by {
                        if self@.contains(i) {
                            let k = choose|k: int| 0 <= k < self@.len() && self@[k] == i;
                            assert(before[k] == before[before.len() - 1]);
                        }
                    }
                    assert(self@.to_set() =~= before.to_set().remove(i));
                },
                None => {
                    assert(before.to_set() =~= Set::<usize>::empty());
                },
            }
        }
        r
    }

    fn len(&self) -> (r: usize) {
        proof {
            self@.unique_seq_to_set();
        }
        Vec::len(self)
    }
}

/// A free set that always hands out its smallest index, so that an arena
/// fills its lowest holes first.
pub struct MinFreeSet {
    /// Held in strictly decreasing order: the smallest index is last.
    items: Vec<usize>,
}

impl MinFreeSet {
    pub open spec fn decreasing(s: Seq<usize>) -> bool {
        forall|a: int, b: int| 0 <= a < b < s.len() ==> s[a] > s[b]
    }

    pub fn new() -> (r: Self)
        ensures
            r.wf(),
            r.free_indices() == Set::<usize>::empty(),
    {
        <MinFreeSet as FreeSet>::empty()
    }

    /// The smallest free index, if any.
    pub fn peek(&self) -> (r: Option<usize>)
        requires
            self.wf(),
        ensures
            match r {
                Some(i) => self.free_indices().contains(i) && forall|j: usize|
                    self.free_indices().contains(j) ==> i <= j,
                None => self.free_indices().is_empty(),
            },
    {
        let n = self.items.len();
        if n == 0 {
            proof {
                assert(self.items@.to_set() =~= Set::<usize>::empty());
            }
            None
        } else {
            let i = self.items[n - 1];
            proof {
                assert(self.items@.contains(i));
                assert forall|j: usize| self.free_indices().contains(j) implies i <= j by {
                    let k = choose|k: int| 0 <= k < self.items@.len() && self.items@[k] == j;
                    if k != n - 1 {
                        assert(self.items@[k] > self.items@[n - 1]);
                    }
                }
            }
            Some(i)
        }
    }
}

impl FreeSet for MinFreeSet {
    closed spec fn wf(&self) -> bool {
        Self::decreasing(self.items@)
    }

    closed spec fn free_indices(&self) -> Set<usize> {
        self.items@.to_set()
    }

    /// The smallest index held.
    open spec fn preferred(&self, i: usize) -> bool {
        self.free_indices().contains(i) && forall|j: usize| #[trigger]
            self.free_indices().contains(j) ==> i <= j
    }

    proof fn lemma_finite(&self) {
        self.items@.lemma_cardinality_of_set();
    }

    fn empty() -> (r: Self) {
        let r = MinFreeSet { items: Vec::new() };
        proof {
            assert(r.items@.to_set() =~= Set::<usize>::empty());
        }
        r
    }

    fn push(&mut self, index: usize) {
        let n = self.items.len();
        let mut pos: usize = n;
        while pos > 0 && self.items[pos - 1] < index
            invariant
                0 <= pos <= n == self.items@.len(),
                Self::decreasing(self.items@),
                forall|k: int| pos <= k < n ==> self.items@[k] < index,
            decreases pos,
        {
            pos = pos - 1;
        }
        let ghost before = self.items@;
        self.items.insert(pos, index);
        proof {
            let after = self.items@;
            assert(after =~= before.insert(pos as int, index));
            assert(pos > 0 ==> before[pos - 1] > index) by {
                if pos > 0 {
                    assert(before[pos - 1] != index) by {
                        assert(before.contains(before[pos - 1]));
                    }
                }
            }
            assert(Self::decreasing(after)) by {
                assert forall|a: int, b: int| 0 <= a < b < after.len() implies after[a]
                    > after[b] by {
                    if b < pos {
                    } else if b == pos {
                        if pos > 0 {
                            assert(before[a] >= before[pos - 1]);
                        }
                    } else if a == pos {
                    } else if a < pos {
                        assert(before[a] > before[b - 1]);
                    } else {
                        assert(before[a - 1] > before[b - 1]);
                    }
                }
            }
            assert(after.to_set() =~= before.to_set().insert(index)) by {
                assert forall|x: usize| after.to_set().contains(x) implies before.to_set().insert(
                    index,
                ).contains(x) by {
                    let k = choose|k: int| 0 <= k < after.len() && after[k] == x;
                    if k < pos {
                        assert(before.contains(before[k]));
                    } else if k > pos {
                        assert(before.contains(before[k - 1]));
                    }
                }
                assert forall|x: usize| before.to_set().insert(index).contains(x) implies after.to_set().contains(
                    x,
                ) by {
                    if x == index {
                        assert(after[pos as int] == index);
                    } else {
                        let k = choose|k: int| 0 <= k < before.len() && before[k] == x;
                        if k < pos {
                            assert(after[k] == x);
                        } else {
                            assert(after[k + 1] == x);
                        }
                    }
                }
            }
        }
    }

    fn pop(&mut self) -> (r: Option<usize>) {
        let ghost before = self.items@;
        let r = self.items.pop();
        proof {
            match r {
                Some(i) => {
                    assert(before =~= self.items@.push(i));
                    self.items@.lemma_push_to_set_commute(i);
                    assert(!self.items@.contains(i)) by {
                        if self.items@.contains(i) {
                            let k = choose|k: int| 0 <= k < self.items@.len() && self.items@[k] == i;
                            assert(before[k] > before[before.len() - 1]);
                        }
                    }
                    assert(self.items@.to_set() =~= before.to_set().remove(i));
                    assert forall|j: usize| #[trigger] before.to_set().contains(j) implies i <= j by {
                        let k = choose|k: int| 0 <= k < before.len() && before[k] == j;
                        if k != before.len() - 1 {
                            assert(before[k] > before[before.len() - 1]);
                        }
                    }
                    assert(before.contains(i));
                    assert(Self::decreasing(self.items@)) by {
                        assert forall|a: int, b: int|
                            0 <= a < b < self.items@.len() implies self.items@[a] > self.items@[b] by {
                            assert(before[a] > before[b]);
                        }
                    }
                },
                None => {
                    assert(before.to_set() =~= Set::<usize>::empty());
                },
            }
        }
        r
    }

    fn len(&self) -> (r: usize) {
        proof {
            assert(self.items@.no_duplicates()) by {
                assert forall|a: int, b: int|
                    0 <= a < self.items@.len() && 0 <= b < self.items@.len() && a != b implies self.items@[a]
                    != self.items@[b] by {
                    if a < b {
                        assert(self.items@[a] > self.items@[b]);
                    } else {
                        assert(self.items@[b] > self.items@[a]);
                    }
                }
            }
            self.items@.unique_seq_to_set();
        }
        self.items.len()
    }
}

/// Empties `set` and returns the indices it held, in increasing order.
pub fn take_sorted<F: FreeSet>(set: &mut F) -> (r: Vec<usize>)
    requires
        old(set).wf(),
    ensures
        final(set).wf(),
        final(set).free_indices().is_empty(),
        r@.to_set() == old(set).free_indices(),
        forall|a: int, b: int| 0 <= a < b < r@.len() ==> r@[a] < r@[b],
{
    proof {
        set.lemma_finite();
    }
    let ghost all = set.free_indices();
    let k = set.len();
    let mut heap = MinFreeSet::new();
    let mut t: usize = 0;
    while t < k
        invariant
            set.wf(),
            heap.wf(),
            t <= k,
            set.free_indices().finite(),
            set.free_indices().len() == k - t,
            set.free_indices().disjoint(heap.free_indices()),
            set.free_indices().union(heap.free_indices()) == all,
        decreases k - t,
    {
        let i = match set.pop() {
            Some(i) => i,
            None => {
                proof {
                    assert(set.free_indices().len() == 0);
                }
                0
            },
        };
        proof {
            assert(!heap.free_indices().contains(i));
        }
        heap.push(i);
        t = t + 1;
        proof {
            assert(set.free_indices().union(heap.free_indices()) =~= all);
        }
    }
    proof {
        assert(set.free_indices().is_empty());
        assert(heap.free_indices() =~= all);
    }
    let mut out: Vec<usize> = Vec::new();
    let mut u: usize = 0;
    while u < k
        invariant
            heap.wf(),
            u <= k,
            all.finite(),
            all.len() == k,
            heap.free_indices().len() == k - u,
            heap.free_indices().finite(),
            out@.to_set().disjoint(heap.free_indices()),
            out@.to_set().union(heap.free_indices()) == all,
            forall|a: int, b: int| 0 <= a < b < out@.len() ==> out@[a] < out@[b],
            forall|a: int, j: usize|
                0 <= a < out@.len() && #[trigger] heap.free_indices().contains(j) ==> #[trigger] out@[a]
                    < j,
        decreases k - u,
    {
        let ghost before = out@;
        let ghost h0 = heap.free_indices();
        let i = match heap.pop() {
            Some(i) => i,
            None => {
                proof {
                    assert(heap.free_indices().len() == 0);
                }
                0
            },
        };
        out.push(i);
        u = u + 1;
        proof {
            before.lemma_push_to_set_commute(i);
            assert(out@.to_set() =~= before.to_set().insert(i));
            assert(out@.to_set().union(heap.free_indices()) =~= all);
            assert forall|a: int, b: int| 0 <= a < b < out@.len() implies out@[a] < out@[b] by {
                if b == out@.len() - 1 {
                    assert(h0.contains(i));
                }
            }
            assert forall|a: int, j: usize|
                0 <= a < out@.len() && #[trigger] heap.free_indices().contains(j) implies #[trigger] out@[a]
                < j by {
                assert(h0.contains(j));
                if a == out@.len() - 1 {
                    assert(i <= j);
                    assert(i != j);
                }
            }
        }
    }
    proof {
        assert(heap.free_indices().len() == 0);
        assert(out@.to_set() =~= all);
    }
    out
}

} // verus!
