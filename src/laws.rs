//! Laws of the store, stated over the effects that its operations promise.

use vstd::prelude::*;
use crate::id_map::{holds_key, insert_effect, remove_effect, well_keyed};

verus! {

/// Inserting pairwise distinct keys that a well-keyed store does not hold,
/// one after another, leaves each key at the index that its insert returned,
/// with the value built for it and one use, and at no other index; so a
/// lookup of the key afterwards finds exactly that value.
pub proof fn law_round_trip<KV, V>(
    states: Seq<Map<usize, (KV, V, nat)>>,
    keys: Seq<KV>,
    ids: Seq<usize>,
    values: Seq<V>,
)
    requires
        states.len() == keys.len() + 1,
        ids.len() == keys.len(),
        values.len() == keys.len(),
        well_keyed(states[0]),
        forall|a: int, b: int| 0 <= a < b < keys.len() ==> keys[a] != keys[b],
        forall|t: int| 0 <= t < keys.len() ==> !holds_key(states[0], #[trigger] keys[t]),
        forall|t: int|
            0 <= t < keys.len() ==> #[trigger] insert_effect(
                states[t],
                states[t + 1],
                keys[t],
                ids[t],
                values[t],
            ),
    ensures
        forall|t: int|
            0 <= t < keys.len() ==> states.last().contains_key(#[trigger] ids[t])
                && states.last()[ids[t]] == (keys[t], values[t], 1nat),
        forall|t: int, i: usize|
            0 <= t < keys.len() && states.last().contains_key(i) && #[trigger] states.last()[i].0
                == #[trigger] keys[t] ==> i == ids[t],
{
    lemma_round_trip_prefix(states, keys, ids, values, keys.len() as int);
}

proof fn lemma_round_trip_prefix<KV, V>(
    states: Seq<Map<usize, (KV, V, nat)>>,
    keys: Seq<KV>,
    ids: Seq<usize>,
    values: Seq<V>,
    n: int,
)
    requires
        0 <= n <= keys.len(),
        states.len() == keys.len() + 1,
        ids.len() == keys.len(),
        values.len() == keys.len(),
        well_keyed(states[0]),
        forall|a: int, b: int| 0 <= a < b < keys.len() ==> keys[a] != keys[b],
        forall|t: int| 0 <= t < keys.len() ==> !holds_key(states[0], #[trigger] keys[t]),
        forall|t: int|
            0 <= t < keys.len() ==> #[trigger] insert_effect(
                states[t],
                states[t + 1],
                keys[t],
                ids[t],
                values[t],
            ),
    ensures
        well_keyed(states[n]),
        forall|t: int|
            0 <= t < n ==> states[n].contains_key(#[trigger] ids[t]) && states[n][ids[t]] == (
                keys[t],
                values[t],
                1nat,
            ),
        forall|t: int, i: usize|
            0 <= t < n && states[n].contains_key(i) && #[trigger] states[n][i].0 == #[trigger] keys[t]
                ==> i == ids[t],
        forall|t: int| n <= t < keys.len() ==> !holds_key(states[n], #[trigger] keys[t]),
    decreases n,
{
    if n > 0 {
        let p = n - 1;
        lemma_round_trip_prefix(states, keys, ids, values, p);
        let m0 = states[p];
        let m1 = states[n];
        assert(insert_effect(states[p], states[p + 1], keys[p], ids[p], values[p]));
        assert(states[p + 1] == m1);
        assert(!holds_key(m0, keys[p]));
        assert(m1 == m0.insert(ids[p], (keys[p], values[p], 1nat)));
        assert forall|i: usize, j: usize|
            m1.contains_key(i) && m1.contains_key(j) && #[trigger] m1[i].0 == #[trigger] m1[j].0 implies i
            == j by {
            if i != ids[p] && j != ids[p] {
                assert(m0[i].0 == m0[j].0);
            } else if i == ids[p] && j != ids[p] {
                assert(m0.contains_key(j) && m0[j].0 == keys[p]);
            } else if j == ids[p] && i != ids[p] {
                assert(m0.contains_key(i) && m0[i].0 == keys[p]);
            }
        }
        assert forall|t: int| 0 <= t < n implies m1.contains_key(#[trigger] ids[t]) && m1[ids[t]]
            == (keys[t], values[t], 1nat) by {
            if t < p {
                assert(m0.contains_key(ids[t]));
            }
        }
        assert forall|t: int, i: usize|
            0 <= t < n && m1.contains_key(i) && #[trigger] m1[i].0 == #[trigger] keys[t] implies i
            == ids[t] by {
            if t < p {
                if i == ids[p] {
                    assert(keys[t] != keys[p]);
                } else {
                    assert(m0[i].0 == keys[t]);
                }
            } else {
                if i != ids[p] {
                    assert(m0.contains_key(i) && m0[i].0 == keys[p]);
                }
            }
        }
        assert forall|t: int| n <= t < keys.len() implies !holds_key(m1, #[trigger] keys[t]) by {
            if holds_key(m1, keys[t]) {
                let i = choose|i: usize| m1.contains_key(i) && #[trigger] m1[i].0 == keys[t];
                if i == ids[p] {
                    assert(keys[p] != keys[t]);
                } else {
                    assert(m0.contains_key(i) && m0[i].0 == keys[t]);
                }
            }
        }
    }
}

/// Inserting a key that a well-keyed store does not hold, and then the same
/// key again, returns the same index both times and leaves it with two uses
/// and the value built the first time; the second insert finds the key, so
/// it builds no value.
pub proof fn law_dedup<KV, V>(
    m0: Map<usize, (KV, V, nat)>,
    m1: Map<usize, (KV, V, nat)>,
    m2: Map<usize, (KV, V, nat)>,
    k: KV,
    r1: usize,
    r2: usize,
    v1: V,
    v2: V,
)
    requires
        well_keyed(m0),
        !holds_key(m0, k),
        insert_effect(m0, m1, k, r1, v1),
        insert_effect(m1, m2, k, r2, v2),
    ensures
        r1 == r2,
        holds_key(m1, k),
        m2.contains_key(r1),
        m2[r1] == (k, v1, 2nat),
{
    assert(m1[r1].0 == k);
    assert(holds_key(m1, k));
    if r2 != r1 {
        assert(m0.contains_key(r2) && m0[r2].0 == k);
    }
}

/// A key inserted once and then removed by its index comes back out with the
/// value built for it, and the store is as before.
pub proof fn law_release_single<KV, V>(
    m0: Map<usize, (KV, V, nat)>,
    m1: Map<usize, (KV, V, nat)>,
    m2: Map<usize, (KV, V, nat)>,
    k: KV,
    r: usize,
    v: V,
    out: Option<Option<V>>,
)
    requires
        !holds_key(m0, k),
        insert_effect(m0, m1, k, r, v),
        remove_effect(m1, m2, r, out),
    ensures
        out == Some(Some(v)),
        m2 == m0,
{
    assert(m2 =~= m0);
}

/// A key inserted twice and removed by its index is still held after the
/// first removal, which hands back nothing; the second removal hands back
/// the value and leaves the store as before.
pub proof fn law_release_shared<KV, V>(
    m0: Map<usize, (KV, V, nat)>,
    m1: Map<usize, (KV, V, nat)>,
    m2: Map<usize, (KV, V, nat)>,
    m3: Map<usize, (KV, V, nat)>,
    m4: Map<usize, (KV, V, nat)>,
    k: KV,
    r1: usize,
    r2: usize,
    v1: V,
    v2: V,
    o1: Option<Option<V>>,
    o2: Option<Option<V>>,
)
    requires
        well_keyed(m0),
        !holds_key(m0, k),
        insert_effect(m0, m1, k, r1, v1),
        insert_effect(m1, m2, k, r2, v2),
        remove_effect(m2, m3, r1, o1),
        remove_effect(m3, m4, r1, o2),
    ensures
        o1 == Some(None::<V>),
        m3.contains_key(r1) && m3[r1] == (k, v1, 1nat),
        o2 == Some(Some(v1)),
        m4 == m0,
{
    law_dedup(m0, m1, m2, k, r1, r2, v1, v2);
    assert(m3 == m2.insert(r1, (k, v1, 1nat)));
    assert(m4 =~= m0);
}

/// An insert of another key leaves an entry where it was, as it was.
pub proof fn law_stable_under_insert<KV, V>(
    m0: Map<usize, (KV, V, nat)>,
    m1: Map<usize, (KV, V, nat)>,
    k: KV,
    r: usize,
    v: V,
    id: usize,
)
    requires
        m0.contains_key(id),
        m0[id].0 != k,
        insert_effect(m0, m1, k, r, v),
    ensures
        r != id,
        m1.contains_key(id),
        m1[id] == m0[id],
{
}

/// A removal at another index leaves an entry where it was, as it was.
pub proof fn law_stable_under_remove<KV, V>(
    m0: Map<usize, (KV, V, nat)>,
    m1: Map<usize, (KV, V, nat)>,
    other: usize,
    out: Option<Option<V>>,
    id: usize,
)
    requires
        m0.contains_key(id),
        other != id,
        remove_effect(m0, m1, other, out),
    ensures
        m1.contains_key(id),
        m1[id] == m0[id],
{
}

/// A removal that releases an entry leaves one entry fewer.
pub proof fn law_count_after_release<KV, V>(
    m0: Map<usize, (KV, V, nat)>,
    m1: Map<usize, (KV, V, nat)>,
    id: usize,
    value: V,
)
    requires
        m0.dom().finite(),
        remove_effect(m0, m1, id, Some(Some(value))),
    ensures
        m1.len() == m0.len() - 1,
{
}

/// An insert of a key that the store does not hold adds one entry, whichever
/// index it lands at.
pub proof fn law_count_after_new_key<KV, V>(
    m0: Map<usize, (KV, V, nat)>,
    m1: Map<usize, (KV, V, nat)>,
    k: KV,
    r: usize,
    v: V,
)
    requires
        m0.dom().finite(),
        !holds_key(m0, k),
        insert_effect(m0, m1, k, r, v),
    ensures
        m1.len() == m0.len() + 1,
{
}

} // verus!
