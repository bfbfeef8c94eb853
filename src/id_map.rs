//! A deduplicating, reference-counted store of keyed values.
//!
//! Inserting a key that is already held returns the index it already has and
//! counts one more use of it; the entry leaves the store only when its last
//! use is removed. Entries live in an `AllocVec`, so an index stays valid
//! until its entry is removed. A key index maps the low 32 bits of each key
//! digest to the indices of the entries whose keys share them, so a lookup
//! needs no owned key and a removal, which finds its entry by index within
//! the bucket, needs no key at all.
//!
//! The store offers no compaction: moving entries would change indices that
//! its callers hold, and nothing here could tell them.

use vstd::prelude::*;
use std::collections::HashMap;
use crate::arena::AllocVec;
use crate::key::{PreKey, StoreKey};

verus! {

/// The part of a key's digest that an entry keeps: enough to find its
/// bucket again; a collision costs only a longer bucket, since entries are
/// told apart by key and by index.
type EntryHash = u32;

struct Entry<K, V> {
    usage: usize,
    hash: EntryHash,
    key: K,
    value: V,
}

pub struct IDMap<K, V> {
    index: HashMap<EntryHash, Vec<usize>>,
    entries: AllocVec<Option<Entry<K, V>>>,
}

impl<K: StoreKey, V> View for IDMap<K, V> {
    /// Each live index with its key, value and number of uses.
    type V = Map<usize, (K::V, V, nat)>;

    closed spec fn view(&self) -> Self::V {
        Map::new(
            |i: usize| self.live(i),
            |i: usize| (self.entry(i).key@, self.entry(i).value, self.entry(i).usage as nat),
        )
    }
}

/// Some entry of `m` has the key `k`.
pub open spec fn holds_key<KV, V>(m: Map<usize, (KV, V, nat)>, k: KV) -> bool {
    exists|i: usize| m.contains_key(i) && #[trigger] m[i].0 == k
}

/// No two entries of `m` share a key, and every entry is in use.
pub open spec fn well_keyed<KV, V>(m: Map<usize, (KV, V, nat)>) -> bool {
    &&& forall|i: usize, j: usize|
        m.contains_key(i) && m.contains_key(j) && #[trigger] m[i].0 == #[trigger] m[j].0 ==> i == j
    &&& forall|i: usize| #[trigger] m.contains_key(i) ==> m[i].2 > 0
}

/// `m1` is what `insert` of the key `k` makes of `m0` when it returns `r`;
/// `v` is the value built for the key when `m0` did not hold it.
pub open spec fn insert_effect<KV, V>(
    m0: Map<usize, (KV, V, nat)>,
    m1: Map<usize, (KV, V, nat)>,
    k: KV,
    r: usize,
    v: V,
) -> bool {
    if holds_key(m0, k) {
        &&& m0.contains_key(r)
        &&& m0[r].0 == k
        &&& m1 == m0.insert(r, (k, m0[r].1, m0[r].2 + 1))
    } else {
        &&& !m0.contains_key(r)
        &&& m1 == m0.insert(r, (k, v, 1))
    }
}

/// `m1` is what `remove(id)` makes of `m0` when it returns `r`.
pub open spec fn remove_effect<KV, V>(
    m0: Map<usize, (KV, V, nat)>,
    m1: Map<usize, (KV, V, nat)>,
    id: usize,
    r: Option<Option<V>>,
) -> bool {
    if !m0.contains_key(id) {
        r == None::<Option<V>> && m1 == m0
    } else if m0[id].2 > 1 {
        r == Some(None::<V>) && m1 == m0.insert(id, (m0[id].0, m0[id].1, (m0[id].2 - 1) as nat))
    } else {
        r == Some(Some(m0[id].1)) && m1 == m0.remove(id)
    }
}

impl<K: StoreKey, V> IDMap<K, V> {
    /// The view of a well-formed store is well keyed and finite.
    pub proof fn lemma_well_keyed(&self)
        requires
            self.wf(),
        ensures
            well_keyed(self@),
            self@.dom().finite(),
            self@.len() <= self.slot_len(),
            forall|i: usize| #[trigger] self@.contains_key(i) ==> i < self.slot_len(),
    {
        assert forall|i: usize, j: usize|
            self@.contains_key(i) && self@.contains_key(j) && #[trigger] self@[i].0
                == #[trigger] self@[j].0 implies i == j by {
            assert(self.live(i) && self.live(j));
            assert(self.entry(i).key@ == self.entry(j).key@);
        }
        assert forall|i: usize| #[trigger] self@.contains_key(i) implies self@[i].2 > 0 by {
            assert(self.live(i));
        }
        self.entries.lemma_live_count();
        self.entries.lemma_free_bounded();
        assert(self@.dom() =~= Set::new(|i: usize| self.entries.is_live(i as int)));
    }

    closed spec fn live(&self, i: usize) -> bool {
        self.entries.is_live(i as int)
    }

    closed spec fn entry(&self, i: usize) -> Entry<K, V> {
        self.entries.slots()[i as int]->Some_0
    }

    /// The bucket of the key `k`: the low bits of its digest.
    pub open spec fn short_digest(k: K::V) -> EntryHash {
        K::digest(k) as EntryHash
    }

    closed spec fn bucket(&self, h: EntryHash) -> Seq<usize> {
        self.index@[h]@
    }

    /// Number of arena slots, live or free.
    pub closed spec fn slot_len(&self) -> nat {
        self.entries.slots().len()
    }

    pub closed spec fn wf(&self) -> bool {
        &&& self.entries.wf()
        &&& forall|i: usize|
            i < self.entries.slots().len() ==> (#[trigger] self.live(i)
                <==> self.entries.slots()[i as int] is Some)
        &&& forall|i: usize| #[trigger]
            self.live(i) ==> {
                &&& self.entry(i).usage > 0
                &&& self.entry(i).hash == Self::short_digest(self.entry(i).key@)
                &&& self.index@.contains_key(self.entry(i).hash)
                &&& self.bucket(self.entry(i).hash).contains(i)
            }
        &&& forall|h: EntryHash| #[trigger]
            self.index@.contains_key(h) ==> {
                &&& self.bucket(h).no_duplicates()
                &&& forall|j: int|
                    0 <= j < self.bucket(h).len() ==> self.live(#[trigger] self.bucket(h)[j])
                        && self.entry(self.bucket(h)[j]).hash == h
            }
        &&& forall|a: usize, b: usize|
            self.live(a) && self.live(b) && #[trigger] self.entry(a).key@ == #[trigger] self.entry(
                b,
            ).key@ ==> a == b
    }

    pub fn new() -> (r: Self)
        ensures
            r.wf(),
            r@ == Map::<usize, (K::V, V, nat)>::empty(),
            r.slot_len() == 0,
    {
        let r = IDMap { index: HashMap::new(), entries: AllocVec::new() };
        proof {
            assert(r@ =~= Map::<usize, (K::V, V, nat)>::empty());
        }
        r
    }

    /// The index of the entry whose key `pre_key` stands for, probing only
    /// the bucket of `hash`.
    fn find<Q: PreKey<K>>(&self, pre_key: &Q, hash: EntryHash) -> (r: Option<usize>)
        requires
            self.wf(),
            hash == Self::short_digest(pre_key.key_view()),
        ensures
            match r {
                Some(i) => self@.contains_key(i) && self@[i].0 == pre_key.key_view(),
                None => !holds_key(self@, pre_key.key_view()),
            },
    {
        match self.index.get(&hash) {
            None => {
                proof {
                    assert forall|i: usize| self@.contains_key(i) implies #[trigger] self@[i].0
                        != pre_key.key_view() by {
                        assert(self.live(i));
                    }
                }
                None
            },
            Some(bucket) => {
                let mut j: usize = 0;
                while j < bucket.len()
                    invariant
                        self.wf(),
                        self.index@.contains_key(hash),
                        bucket@ == self.bucket(hash),
                        j <= bucket@.len(),
                        forall|t: int|
                            0 <= t < j ==> self.entry(#[trigger] bucket@[t]).key@
                                != pre_key.key_view(),
                    decreases bucket@.len() - j,
                {
                    let id = bucket[j];
                    assert(self.live(self.bucket(hash)[j as int]));
                    match self.entries.get_unchecked(id) {
                        Some(e) => {
                            if pre_key.matches(&e.key) {
                                return Some(id);
                            }
                        },
                        None => {},
                    }
                    j = j + 1;
                }
                proof {
                    assert forall|i: usize| self@.contains_key(i) implies #[trigger] self@[i].0
                        != pre_key.key_view() by {
                        assert(self.live(i));
                        if self@[i].0 == pre_key.key_view() {
                            assert(self.bucket(hash).contains(i));
                            let t = choose|t: int|
                                0 <= t < bucket@.len() && self.bucket(hash)[t] == i;
                            assert(self.entry(bucket@[t]).key@ != pre_key.key_view());
                        }
                    }
                }
                None
            },
        }
    }

    /// Counts one more use of the key `pre_key` stands for and returns its
    /// index. When no entry holds that key, `make_value` is called, once, to
    /// build the owned key and the value, and a new entry with one use is
    /// stored; otherwise `make_value` is not called.
    pub fn insert<Q: PreKey<K>, F: FnOnce(Q) -> (K, V)>(
        &mut self,
        pre_key: Q,
        make_value: F,
    ) -> (r: usize)
        requires
            old(self).wf(),
            make_value.requires((pre_key,)),
            forall|kv: (K, V)| #[trigger]
                make_value.ensures((pre_key,), kv) ==> kv.0@ == pre_key.key_view(),
            forall|i: usize|
                old(self)@.contains_key(i) && #[trigger] old(self)@[i].0 == pre_key.key_view()
                    ==> old(self)@[i].2 < usize::MAX,
            old(self).slot_len() < usize::MAX,
        ensures
            final(self).wf(),
            final(self)@.contains_key(r),
            final(self)@[r].0 == pre_key.key_view(),
            holds_key(old(self)@, pre_key.key_view()) ==> insert_effect(
                old(self)@,
                final(self)@,
                pre_key.key_view(),
                r,
                old(self)@[r].1,
            ),
            !holds_key(old(self)@, pre_key.key_view()) ==> exists|kv: (K, V)|
                #[trigger] make_value.ensures((pre_key,), kv) && insert_effect(
                    old(self)@,
                    final(self)@,
                    pre_key.key_view(),
                    r,
                    kv.1,
                ),
            r <= old(self).slot_len(),
            final(self).slot_len() == if r < old(self).slot_len() {
                old(self).slot_len()
            } else {
                old(self).slot_len() + 1
            },
            !holds_key(old(self)@, pre_key.key_view()) ==> {
                &&& (r == old(self).slot_len() <==> old(self)@.len() == old(self).slot_len())
                &&& forall|j: usize| j < r ==> #[trigger] old(self)@.contains_key(j)
            },
    {
        proof {
            self.lemma_well_keyed();
        }
        let hash = pre_key.pre_hash() as EntryHash;
        match self.find(&pre_key, hash) {
            Some(id) => {
                proof {
                    assert(self.live(id));
                }
                let slot = self.entries.get_unchecked_mut(id);
                let mut e = slot.take().unwrap();
                e.usage = e.usage + 1;
                let ghost (u, v) = (e.usage, e.value);
                *slot = Some(e);
                proof {
                    self.lemma_entry_changed(*old(self), id, u, v);
                }
                id
            },
            None => {
                proof {
                    self.entries.lemma_live_count();
                    self.entries.lemma_free_bounded();
                    assert(self@.dom() =~= Set::new(|i: usize| self.entries.is_live(i as int)));
                    assert(self.entries.free_indices().is_empty() <==> self.entries.free_indices().len()
                        == 0);
                }
                let ghost pk = pre_key.key_view();
                let (key, value) = make_value(pre_key);
                let ghost kv = (key, value);
                let id = self.entries.allocate(Some(Entry { usage: 1, hash, key, value }));
                let mut bucket = match self.index.remove(&hash) {
                    Some(b) => b,
                    None => Vec::new(),
                };
                proof {
                    assert(!bucket@.contains(id)) by {
                        if bucket@.contains(id) {
                            let t = choose|t: int| 0 <= t < bucket@.len() && bucket@[t] == id;
                            assert(old(self).live(old(self).bucket(hash)[t]));
                        }
                    }
                }
                let ghost pushed = bucket@.push(id);
                bucket.push(id);
                self.index.insert(hash, bucket);
                proof {
                    assert(self.index@.dom() =~= old(self).index@.dom().insert(hash));
                    assert(self.bucket(hash) == pushed);
                    if old(self).index@.contains_key(hash) {
                        assert(pushed == old(self).bucket(hash).push(id));
                    } else {
                        assert(pushed =~= seq![id]);
                    }
                    self.lemma_insert_view(*old(self), id, hash, pk, kv.1);
                    assert(make_value.ensures((pre_key,), kv));
                }
                id
            },
        }
    }

    /// Gives up one use of the entry at `id`.
    ///
    /// `None` when no entry lives at `id`; `Some(None)` when the entry is
    /// still used afterwards; `Some(Some(value))` when that was its last use:
    /// the entry leaves the store, its slot is freed, and its value is
    /// handed back.
    pub fn remove(&mut self, id: usize) -> (r: Option<Option<V>>)
        requires
            old(self).wf(),
        ensures
            final(self).wf(),
            remove_effect(old(self)@, final(self)@, id, r),
            final(self).slot_len() == old(self).slot_len(),
    {
        let usage = match self.entries.get(id) {
            Some(Some(e)) => e.usage,
            _ => {
                proof {
                    assert(!self.live(id));
                }
                return None;
            },
        };
        proof {
            assert(self.live(id));
        }
        if usage > 1 {
            let slot = self.entries.get_unchecked_mut(id);
            let mut e = slot.take().unwrap();
            e.usage = e.usage - 1;
            let ghost (u, v) = (e.usage, e.value);
            *slot = Some(e);
            proof {
                self.lemma_entry_changed(*old(self), id, u, v);
            }
            Some(None)
        } else {
            let slot = self.entries.get_unchecked_mut(id);
            let e = slot.take().unwrap();
            self.entries.free(id);
            let hash = e.hash;
            proof {
                assert(old(self).index@.contains_key(hash));
            }
            let mut bucket = self.index.remove(&hash).unwrap();
            let ghost b0 = bucket@;
            proof {
                assert(b0 == old(self).bucket(hash));
            }
            let mut p: usize = 0;
            while p < bucket.len() && bucket[p] != id
                invariant
                    bucket@ == b0,
                    b0.contains(id),
                    p <= b0.len(),
                    forall|t: int| 0 <= t < p ==> b0[t] != id,
                decreases b0.len() - p,
            {
                p = p + 1;
            }
            proof {
                if p >= b0.len() {
                    let t = choose|t: int| 0 <= t < b0.len() && b0[t] == id;
                    assert(b0[t] != id);
                }
            }
            bucket.remove(p);
            let ghost rest = bucket@;
            if bucket.len() > 0 {
                self.index.insert(hash, bucket);
            }
            proof {
                self.lemma_unlinked(*old(self), id, hash, p as int, rest);
            }
            Some(Some(e.value))
        }
    }

    /// `self` is `prev` without the entry at `id`, whose index was found at
    /// position `p` of its bucket.
    proof fn lemma_unlinked(&self, prev: Self, id: usize, hash: EntryHash, p: int, rest: Seq<usize>)
        requires
            prev.wf(),
            prev.live(id),
            prev.entry(id).hash == hash,
            0 <= p < prev.bucket(hash).len(),
            prev.bucket(hash)[p] == id,
            rest == prev.bucket(hash).remove(p),
            self.entries.wf(),
            self.entries.slots() == prev.entries.slots().update(id as int, None),
            self.entries.free_indices() == prev.entries.free_indices().insert(id),
            forall|h: EntryHash|
                h != hash ==> (#[trigger] self.index@.contains_key(h) == prev.index@.contains_key(h)),
            forall|h: EntryHash|
                h != hash && #[trigger] self.index@.contains_key(h) ==> self.index@[h]
                    == prev.index@[h],
            self.index@.contains_key(hash) ==> self.bucket(hash) == rest,
            !self.index@.contains_key(hash) ==> rest.len() == 0,
        ensures
            self.wf(),
            self@ == prev@.remove(id),
    {
        let b = prev.bucket(hash);
        assert forall|i: usize| #[trigger] self.live(i) == (prev.live(i) && i != id) by {}
        assert forall|i: usize| self.live(i) implies #[trigger] self.entry(i) == prev.entry(i) by {}
        assert(self@ =~= prev@.remove(id));
        assert forall|i: usize| i < self.entries.slots().len() implies (#[trigger] self.live(i)
            <==> self.entries.slots()[i as int] is Some) by {
            assert(prev.live(i) <==> prev.entries.slots()[i as int] is Some);
        }
        assert forall|i: usize| #[trigger] self.live(i) implies {
            &&& self.entry(i).usage > 0
            &&& self.entry(i).hash == Self::short_digest(self.entry(i).key@)
            &&& self.index@.contains_key(self.entry(i).hash)
            &&& self.bucket(self.entry(i).hash).contains(i)
        } by {
            assert(prev.live(i));
            let h = prev.entry(i).hash;
            assert(prev.bucket(h).contains(i));
            assert(self.entry(i) == prev.entry(i));
            if h == hash {
                let t = choose|t: int| 0 <= t < b.len() && b[t] == i;
                assert(t != p);
                if t < p {
                    assert(rest[t] == i);
                } else {
                    assert(rest[t - 1] == i);
                }
                assert(rest.contains(i));
                assert(self.index@.contains_key(hash));
                assert(self.bucket(hash).contains(i));
            } else {
                assert(self.index@.contains_key(h));
                assert(self.bucket(h) == prev.bucket(h));
            }
        }
        assert forall|h: EntryHash| #[trigger] self.index@.contains_key(h) implies {
            &&& self.bucket(h).no_duplicates()
            &&& forall|j: int|
                0 <= j < self.bucket(h).len() ==> self.live(#[trigger] self.bucket(h)[j])
                    && self.entry(self.bucket(h)[j]).hash == h
        } by {
            if h != hash {
                assert forall|j: int| 0 <= j < self.bucket(h).len() implies self.live(
                    #[trigger] self.bucket(h)[j],
                ) && self.entry(self.bucket(h)[j]).hash == h by {
                    assert(prev.live(prev.bucket(h)[j]));
                    assert(prev.bucket(h)[j] != id);
                }
            } else {
                assert forall|j: int| 0 <= j < rest.len() implies self.live(#[trigger] rest[j])
                    && self.entry(rest[j]).hash == h by {
                    if j < p {
                        assert(rest[j] == b[j]);
                        assert(prev.live(b[j]));
                    } else {
                        assert(rest[j] == b[j + 1]);
                        assert(prev.live(b[j + 1]));
                    }
                }
            }
        }
        assert forall|a: usize, c: usize|
            self.live(a) && self.live(c) && #[trigger] self.entry(a).key@
                == #[trigger] self.entry(c).key@ implies a == c by {
            assert(prev.live(a) && prev.live(c));
        }
    }

    /// The entry whose key `pre_key` stands for: its index, key and value.
    pub fn get<Q: PreKey<K>>(&self, pre_key: &Q) -> (r: Option<(usize, &K, &V)>)
        requires
            self.wf(),
        ensures
            match r {
                Some((i, k, v)) => {
                    &&& self@.contains_key(i)
                    &&& self@[i].0 == pre_key.key_view()
                    &&& k@ == pre_key.key_view()
                    &&& *v == self@[i].1
                },
                None => !holds_key(self@, pre_key.key_view()),
            },
    {
        let hash = pre_key.pre_hash() as EntryHash;
        match self.find(pre_key, hash) {
            Some(id) => {
                proof {
                    assert(self.live(id));
                }
                let e = self.entries.get_unchecked(id).as_ref().unwrap();
                Some((id, &e.key, &e.value))
            },
            None => None,
        }
    }

    /// The number of uses of the entry at `id`, or 0 when none lives there.
    pub fn usage(&self, id: usize) -> (r: usize)
        requires
            self.wf(),
        ensures
            r == if self@.contains_key(id) {
                self@[id].2
            } else {
                0
            },
    {
        match self.entries.get(id) {
            Some(Some(e)) => {
                proof {
                    assert(self.live(id));
                }
                e.usage
            },
            _ => {
                proof {
                    assert(!self.live(id));
                }
                0
            },
        }
    }

    /// Counts one more use of the entry at `id`; false when none lives there.
    pub fn duplicate(&mut self, id: usize) -> (r: bool)
        requires
            old(self).wf(),
            old(self)@.contains_key(id) ==> old(self)@[id].2 < usize::MAX,
        ensures
            final(self).wf(),
            r == old(self)@.contains_key(id),
            r ==> final(self)@ == old(self)@.insert(
                id,
                (old(self)@[id].0, old(self)@[id].1, old(self)@[id].2 + 1),
            ),
            !r ==> final(self)@ == old(self)@,
            final(self).slot_len() == old(self).slot_len(),
    {
        match self.entries.get(id) {
            Some(Some(_)) => {},
            _ => {
                proof {
                    assert(!self.live(id));
                }
                return false;
            },
        }
        proof {
            assert(self.live(id));
        }
        let slot = self.entries.get_unchecked_mut(id);
        let mut e = slot.take().unwrap();
        e.usage = e.usage + 1;
        let ghost (u, v) = (e.usage, e.value);
        *slot = Some(e);
        proof {
            self.lemma_entry_changed(*old(self), id, u, v);
        }
        true
    }

    /// The number of entries.
    pub fn count(&self) -> (r: usize)
        requires
            self.wf(),
        ensures
            r == self@.len(),
            self@.dom().finite(),
    {
        proof {
            self.entries.lemma_live_count();
            assert(self@.dom() =~= Set::new(|i: usize| self.entries.is_live(i as int)));
        }
        self.entries.count()
    }

    /// The value of the entry at `id`, which the caller knows to be live.
    pub fn get_unchecked(&self, id: usize) -> (r: &V)
        requires
            self.wf(),
            self@.contains_key(id),
        ensures
            *r == self@[id].1,
    {
        proof {
            assert(self.live(id));
        }
        &self.entries.get_unchecked(id).as_ref().unwrap().value
    }

    /// The value of the entry at `id`, which the caller knows to be live,
    /// for writing; its key and number of uses stay as they are.
    pub fn get_unchecked_mut(&mut self, id: usize) -> (r: &mut V)
        requires
            old(self).wf(),
            old(self)@.contains_key(id),
        ensures
            *r == old(self)@[id].1,
            final(self).wf(),
            final(self)@ == old(self)@.insert(id, (old(self)@[id].0, *final(r), old(self)@[id].2)),
            final(self).slot_len() == old(self).slot_len(),
    {
        proof {
            assert(self.live(id));
        }
        let ghost prev = *self;
        proof {
            assert forall|s: Self|
                #![trigger s.wf()]
                s.index == prev.index && s.entries.free_indices() == prev.entries.free_indices()
                    && s.entries.wf() && s.entries.slots() == prev.entries.slots().update(
                    id as int,
                    Some(
                        Entry {
                            usage: prev.entry(id).usage,
                            hash: prev.entry(id).hash,
                            key: prev.entry(id).key,
                            value: s.entries.slots()[id as int]->Some_0.value,
                        },
                    ),
                ) implies s.wf() && s@ == prev@.insert(
                    id,
                    (prev@[id].0, s.entries.slots()[id as int]->Some_0.value, prev@[id].2),
                ) by {
                s.lemma_entry_changed(
                    prev,
                    id,
                    prev.entry(id).usage,
                    s.entries.slots()[id as int]->Some_0.value,
                );
            }
        }
        let slot = self.entries.get_unchecked_mut(id);
        let e = slot.as_mut().unwrap();
        &mut e.value
    }

    /// The value of the entry at `id` for writing, if one lives there.
    pub fn get_mut(&mut self, id: usize) -> (r: Option<&mut V>)
        requires
            old(self).wf(),
        ensures
            final(self).wf(),
            match r {
                Some(e) => {
                    &&& old(self)@.contains_key(id)
                    &&& *e == old(self)@[id].1
                    &&& final(self)@ == old(self)@.insert(
                        id,
                        (old(self)@[id].0, *final(e), old(self)@[id].2),
                    )
                },
                None => !old(self)@.contains_key(id) && final(self)@ == old(self)@,
            },
            final(self).slot_len() == old(self).slot_len(),
    {
        let live = match self.entries.get(id) {
            Some(Some(_)) => true,
            _ => false,
        };
        if live {
            proof {
                assert(self.live(id));
            }
            Some(self.get_unchecked_mut(id))
        } else {
            proof {
                assert(!self.live(id));
            }
            None
        }
    }

    /// The key and the value, for writing, of the entry at `id`, if one
    /// lives there.
    pub fn at_mut(&mut self, id: usize) -> (r: Option<(&K, &mut V)>)
        requires
            old(self).wf(),
        ensures
            final(self).wf(),
            final(self).slot_len() == old(self).slot_len(),
            match r {
                Some((k, v)) => {
                    &&& old(self)@.contains_key(id)
                    &&& k@ == old(self)@[id].0
                    &&& *v == old(self)@[id].1
                    &&& final(self)@ == old(self)@.insert(
                        id,
                        (old(self)@[id].0, *final(v), old(self)@[id].2),
                    )
                },
                None => !old(self)@.contains_key(id) && final(self)@ == old(self)@,
            },
    {
        let live = match self.entries.get(id) {
            Some(Some(_)) => true,
            _ => false,
        };
        if !live {
            proof {
                assert(!self.live(id));
            }
            return None;
        }
        proof {
            assert(self.live(id));
        }
        let ghost prev = *self;
        proof {
            assert forall|s: Self|
                #![trigger s.wf()]
                s.index == prev.index && s.entries.free_indices() == prev.entries.free_indices()
                    && s.entries.wf() && s.entries.slots() == prev.entries.slots().update(
                    id as int,
                    Some(
                        Entry {
                            usage: prev.entry(id).usage,
                            hash: prev.entry(id).hash,
                            key: prev.entry(id).key,
                            value: s.entries.slots()[id as int]->Some_0.value,
                        },
                    ),
                ) implies s.wf() && s@ == prev@.insert(
                    id,
                    (prev@[id].0, s.entries.slots()[id as int]->Some_0.value, prev@[id].2),
                ) by {
                s.lemma_entry_changed(
                    prev,
                    id,
                    prev.entry(id).usage,
                    s.entries.slots()[id as int]->Some_0.value,
                );
            }
        }
        let slot = self.entries.get_unchecked_mut(id);
        let e = slot.as_mut().unwrap();
        Some((&e.key, &mut e.value))
    }

    /// Replaces the value of every entry `i` with `f(i, key, value)`; keys
    /// and numbers of uses stay as they are.
    pub fn update_values<F: Fn(usize, &K, V) -> V>(&mut self, f: F)
        requires
            old(self).wf(),
            forall|i: usize, k: &K, v: V| #[trigger] f.requires((i, k, v)),
        ensures
            final(self).wf(),
            final(self).slot_len() == old(self).slot_len(),
            final(self)@.dom() == old(self)@.dom(),
            forall|i: usize|
                #[trigger] old(self)@.contains_key(i) ==> {
                    &&& final(self)@[i].0 == old(self)@[i].0
                    &&& final(self)@[i].2 == old(self)@[i].2
                    &&& exists|k: K|
                        k@ == old(self)@[i].0 && #[trigger] f.ensures(
                            (i, &k, old(self)@[i].1),
                            final(self)@[i].1,
                        )
                },
    {
        let n = self.entries.raw_len();
        let mut i: usize = 0;
        while i < n
            invariant
                self.wf(),
                forall|i: usize, k: &K, v: V| #[trigger] f.requires((i, k, v)),
                n == self.slot_len(),
                self.slot_len() == old(self).slot_len(),
                i <= n,
                self@.dom() == old(self)@.dom(),
                forall|j: usize|
                    #[trigger] old(self)@.contains_key(j) ==> {
                        &&& self@[j].0 == old(self)@[j].0
                        &&& self@[j].2 == old(self)@[j].2
                        &&& j >= i ==> self@[j] == old(self)@[j]
                        &&& j < i ==> exists|k: K|
                            k@ == old(self)@[j].0 && #[trigger] f.ensures(
                                (j, &k, old(self)@[j].1),
                                self@[j].1,
                            )
                    },
            decreases n - i,
        {
            let live = match self.entries.get(i) {
                Some(Some(_)) => true,
                _ => false,
            };
            if live {
                proof {
                    assert(self.live(i));
                }
                let ghost prev = *self;
                let slot = self.entries.get_unchecked_mut(i);
                let Entry { usage, hash, key, value } = slot.take().unwrap();
                let ghost k = key;
                let ghost v0 = value;
                let value = f(i, &key, value);
                let ghost v1 = value;
                *slot = Some(Entry { usage, hash, key, value });
                proof {
                    self.lemma_entry_changed(prev, i, usage, v1);
                    assert(prev@[i].1 == v0);
                    assert(k@ == prev@[i].0);
                    assert forall|j: usize| #[trigger] old(self)@.contains_key(j) implies {
                        &&& self@[j].0 == old(self)@[j].0
                        &&& self@[j].2 == old(self)@[j].2
                        &&& j >= i + 1 ==> self@[j] == old(self)@[j]
                        &&& j < i + 1 ==> exists|k: K|
                            k@ == old(self)@[j].0 && #[trigger] f.ensures(
                                (j, &k, old(self)@[j].1),
                                self@[j].1,
                            )
                    } by {
                        if j == i {
                            assert(f.ensures((j, &k, old(self)@[j].1), self@[j].1));
                        }
                    }
                }
            } else {
                proof {
                    assert(!self.live(i));
                    assert(!old(self)@.contains_key(i));
                }
            }
            i = i + 1;
        }
    }

    /// The value of the entry at `id`; there must be one.
    pub fn index(&self, id: usize) -> (r: &V)
        requires
            self.wf(),
            self@.contains_key(id),
        ensures
            *r == self@[id].1,
    {
        self.get_unchecked(id)
    }

    /// The key and value of the entry at `id`, if one lives there.
    pub fn at(&self, id: usize) -> (r: Option<(&K, &V)>)
        requires
            self.wf(),
        ensures
            match r {
                Some((k, v)) => self@.contains_key(id) && k@ == self@[id].0 && *v == self@[id].1,
                None => !self@.contains_key(id),
            },
    {
        match self.entries.get(id) {
            Some(Some(e)) => {
                proof {
                    assert(self.live(id));
                }
                Some((&e.key, &e.value))
            },
            _ => {
                proof {
                    assert(!self.live(id));
                }
                None
            },
        }
    }

    /// Every entry as `(index, key, value)`, by increasing index.
    pub fn key_entries(&self) -> (r: Vec<(usize, &K, &V)>)
        requires
            self.wf(),
        ensures
            forall|j: int|
                0 <= j < r@.len() ==> {
                    let (i, k, v) = #[trigger] r@[j];
                    &&& self@.contains_key(i)
                    &&& k@ == self@[i].0
                    &&& *v == self@[i].1
                },
            forall|a: int, b: int| 0 <= a < b < r@.len() ==> r@[a].0 < r@[b].0,
            forall|i: usize|
                self@.contains_key(i) ==> exists|j: int| 0 <= j < r@.len() && #[trigger] r@[j].0 == i,
    {
        let raw = self.entries.raw();
        let mut out: Vec<(usize, &K, &V)> = Vec::new();
        let mut i: usize = 0;
        while i < raw.len()
            invariant
                self.wf(),
                raw@ == self.entries.slots(),
                i <= raw@.len(),
                forall|j: int|
                    0 <= j < out@.len() ==> {
                        let (x, k, v) = #[trigger] out@[j];
                        &&& x < i
                        &&& self@.contains_key(x)
                        &&& k@ == self@[x].0
                        &&& *v == self@[x].1
                    },
                forall|a: int, b: int| 0 <= a < b < out@.len() ==> out@[a].0 < out@[b].0,
                forall|x: usize|
                    x < i && self@.contains_key(x) ==> exists|j: int|
                        0 <= j < out@.len() && #[trigger] out@[j].0 == x,
            decreases raw@.len() - i,
        {
            match &raw[i] {
                Some(e) => {
                    proof {
                        assert(self.live(i));
                    }
                    let ghost before = out@;
                    out.push((i, &e.key, &e.value));
                    proof {
                        assert forall|x: usize|
                            x < i + 1 && self@.contains_key(x) implies exists|j: int|
                            0 <= j < out@.len() && #[trigger] out@[j].0 == x by {
                            if x == i {
                                assert(out@[before.len() as int].0 == x);
                            } else {
                                let j = choose|j: int| 0 <= j < before.len() && before[j].0 == x;
                                assert(out@[j].0 == x);
                            }
                        }
                    }
                },
                None => {
                    proof {
                        assert(!self.live(i));
                    }
                },
            }
            i = i + 1;
        }
        out
    }

    /// `self` is `prev` with the entry at `id` changed in its use count and
    /// value only.
    proof fn lemma_entry_changed(&self, prev: Self, id: usize, usage: usize, value: V)
        requires
            prev.wf(),
            prev.live(id),
            usage > 0,
            self.index == prev.index,
            self.entries.free_indices() == prev.entries.free_indices(),
            self.entries.wf(),
            self.entries.slots() == prev.entries.slots().update(
                id as int,
                Some(
                    Entry {
                        usage: usage,
                        hash: prev.entry(id).hash,
                        key: prev.entry(id).key,
                        value: value,
                    },
                ),
            ),
        ensures
            self.wf(),
            self@ == prev@.insert(id, (prev@[id].0, value, usage as nat)),
    {
        assert forall|i: usize| #[trigger] self.live(i) == prev.live(i) by {}
        assert forall|i: usize| self.live(i) && i != id implies #[trigger] self.entry(i) == prev.entry(
            i,
        ) by {}
        assert(self.entry(id).key == prev.entry(id).key);
        assert(self.entry(id).hash == prev.entry(id).hash);
        assert(self@ =~= prev@.insert(id, (prev@[id].0, value, usage as nat)));
        assert forall|i: usize| i < self.entries.slots().len() implies (#[trigger] self.live(i)
            <==> self.entries.slots()[i as int] is Some) by {
            assert(prev.live(i) <==> prev.entries.slots()[i as int] is Some);
        }
        assert forall|i: usize| #[trigger] self.live(i) implies {
            &&& self.entry(i).usage > 0
            &&& self.entry(i).hash == Self::short_digest(self.entry(i).key@)
            &&& self.index@.contains_key(self.entry(i).hash)
            &&& self.bucket(self.entry(i).hash).contains(i)
        } by {
            assert(prev.live(i));
        }
        assert forall|h: EntryHash| #[trigger] self.index@.contains_key(h) implies {
            &&& self.bucket(h).no_duplicates()
            &&& forall|j: int|
                0 <= j < self.bucket(h).len() ==> self.live(#[trigger] self.bucket(h)[j])
                    && self.entry(self.bucket(h)[j]).hash == h
        } by {
            assert forall|j: int| 0 <= j < self.bucket(h).len() implies self.live(
                #[trigger] self.bucket(h)[j],
            ) && self.entry(self.bucket(h)[j]).hash == h by {
                assert(prev.live(prev.bucket(h)[j]));
            }
        }
        assert forall|a: usize, b: usize|
            self.live(a) && self.live(b) && #[trigger] self.entry(a).key@
                == #[trigger] self.entry(b).key@ implies a == b by {
            assert(prev.live(a) && prev.live(b));
            assert(prev.entry(a).key@ == prev.entry(b).key@);
        }
    }

    proof fn lemma_insert_view(&self, prev: Self, id: usize, hash: EntryHash, pk: K::V, value: V)
        requires
            prev.wf(),
            !prev.live(id),
            !holds_key(prev@, pk),
            hash == Self::short_digest(pk),
            self.entries.wf(),
            self.live(id),
            forall|i: usize| i != id ==> (#[trigger] self.live(i) <==> prev.live(i)),
            forall|i: usize|
                i != id && i < prev.entries.slots().len() ==> #[trigger] self.entries.slots()[i as int]
                    == prev.entries.slots()[i as int],
            self.entries.slots().len() == if id < prev.entries.slots().len() {
                prev.entries.slots().len()
            } else {
                prev.entries.slots().len() + 1
            },
            id <= prev.entries.slots().len(),
            self.entries.slots()[id as int] is Some,
            self.entry(id).usage == 1,
            self.entry(id).hash == hash,
            self.entry(id).key@ == pk,
            self.entry(id).value == value,
            self.index@.dom() == prev.index@.dom().insert(hash),
            forall|h: EntryHash|
                h != hash && #[trigger] self.index@.contains_key(h) ==> self.index@[h]
                    == prev.index@[h],
            self.bucket(hash) == if prev.index@.contains_key(hash) {
                prev.bucket(hash).push(id)
            } else {
                seq![id]
            },
        ensures
            self.wf(),
            self@ == prev@.insert(id, (pk, value, 1)),
    {
        assert forall|i: usize| #[trigger] self.live(i) && i != id implies self.entry(i) == prev.entry(
            i,
        ) by {
            assert(prev.live(i));
        }
        assert(self@ =~= prev@.insert(id, (pk, value, 1)));
        assert forall|i: usize| i < self.entries.slots().len() implies (#[trigger] self.live(i)
            <==> self.entries.slots()[i as int] is Some) by {
            if i != id {
                assert(prev.live(i) <==> prev.entries.slots()[i as int] is Some);
            }
        }
        assert forall|i: usize| #[trigger] self.live(i) implies {
            &&& self.entry(i).usage > 0
            &&& self.entry(i).hash == Self::short_digest(self.entry(i).key@)
            &&& self.index@.contains_key(self.entry(i).hash)
            &&& self.bucket(self.entry(i).hash).contains(i)
        } by {
            if i != id {
                assert(prev.live(i));
                assert(self.entry(i) == prev.entry(i));
                let h = prev.entry(i).hash;
                assert(prev.bucket(h).contains(i));
                assert(self.index@.contains_key(h));
                if h == hash {
                    let t = choose|t: int| 0 <= t < prev.bucket(h).len() && prev.bucket(h)[t] == i;
                    assert(self.bucket(h)[t] == i);
                    assert(self.bucket(h).contains(i));
                } else {
                    assert(self.bucket(h) == prev.bucket(h));
                }
            } else {
                if prev.index@.contains_key(hash) {
                    assert(self.bucket(hash)[prev.bucket(hash).len() as int] == id);
                } else {
                    assert(self.bucket(hash)[0] == id);
                }
            }
        }
        assert forall|h: EntryHash| #[trigger] self.index@.contains_key(h) implies {
            &&& self.bucket(h).no_duplicates()
            &&& forall|j: int|
                0 <= j < self.bucket(h).len() ==> self.live(#[trigger] self.bucket(h)[j])
                    && self.entry(self.bucket(h)[j]).hash == h
        } by {
            if h != hash {
                assert(prev.index@.contains_key(h));
                assert forall|j: int| 0 <= j < self.bucket(h).len() implies self.live(
                    #[trigger] self.bucket(h)[j],
                ) && self.entry(self.bucket(h)[j]).hash == h by {
                    assert(prev.live(prev.bucket(h)[j]));
                }
            } else if prev.index@.contains_key(hash) {
                let b = prev.bucket(hash);
                assert forall|j: int| 0 <= j < b.len() implies #[trigger] b[j] != id by {
                    assert(prev.live(b[j]));
                }
                assert forall|j: int| 0 <= j < self.bucket(h).len() implies self.live(
                    #[trigger] self.bucket(h)[j],
                ) && self.entry(self.bucket(h)[j]).hash == h by {
                    if j < b.len() {
                        assert(prev.live(b[j]));
                    }
                }
            } else {
                assert forall|j: int| 0 <= j < self.bucket(h).len() implies self.live(
                    #[trigger] self.bucket(h)[j],
                ) && self.entry(self.bucket(h)[j]).hash == h by {}
            }
        }
        assert forall|a: usize, b: usize|
            self.live(a) && self.live(b) && #[trigger] self.entry(a).key@
                == #[trigger] self.entry(b).key@ implies a == b by {
            if a != id && b != id {
                assert(prev.live(a) && prev.live(b));
            } else if a == id && b != id {
                assert(prev@.contains_key(b) && prev@[b].0 == pk);
            } else if b == id && a != id {
                assert(prev@.contains_key(a) && prev@[a].0 == pk);
            }
        }
    }
}

} // verus!
