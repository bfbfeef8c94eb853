use std::cell::Cell;

use dedup_arena::arena::AllocVec;
use dedup_arena::free_set::{take_sorted, FreeSet, MinFreeSet};
use dedup_arena::id_map::IDMap;

fn abc() -> IDMap<String, i32> {
    let mut m: IDMap<String, i32> = IDMap::new();
    assert_eq!(m.insert("a", |k: &str| (k.to_string(), 1)), 0);
    assert_eq!(m.insert("b", |k: &str| (k.to_string(), 2)), 1);
    assert_eq!(m.insert("c", |k: &str| (k.to_string(), 3)), 2);
    m
}

#[test]
fn concrete_scenario() {
    let mut m = abc();
    for i in 0..3 {
        assert_eq!(m.usage(i), 1);
    }
    assert_eq!(m.remove(1), Some(Some(2)));
    assert_eq!(m.count(), 2);
    assert_eq!(m.usage(1), 0);
    let id = m.insert("b2", |k: &str| (k.to_string(), 4));
    assert_eq!(id, 1);
    assert_eq!(m.count(), 3);
    let (i, k, v) = m.get(&"a").unwrap();
    assert_eq!((i, k.as_str(), *v), (0, "a", 1));
    assert_eq!(m.usage(0), 1);
    assert_eq!(*m.index(1), 4);
}

#[test]
fn round_trip() {
    let mut m: IDMap<String, usize> = IDMap::new();
    let keys: Vec<String> = (0..50).map(|i| format!("key{}", i)).collect();
    let mut ids = Vec::new();
    for (n, k) in keys.iter().enumerate() {
        ids.push(m.insert(k.clone(), move |k: String| (k, n * 10)));
    }
    for (n, k) in keys.iter().enumerate() {
        let (i, key, v) = m.get(&k.as_str()).unwrap();
        assert_eq!(i, ids[n]);
        assert_eq!(key, k);
        assert_eq!(*v, n * 10);
    }
    assert!(m.get(&"missing").is_none());
    assert_eq!(m.count(), 50);
}

#[test]
fn dedup_builds_once() {
    let calls = Cell::new(0);
    let mut m: IDMap<String, i32> = IDMap::new();
    let make = |k: &str| {
        calls.set(calls.get() + 1);
        (k.to_string(), 7)
    };
    let a = m.insert("x", make);
    let b = m.insert("x", make);
    assert_eq!(a, b);
    assert_eq!(m.usage(a), 2);
    assert_eq!(calls.get(), 1);
    assert_eq!(m.count(), 1);
}

#[test]
fn refcount_lifecycle() {
    let mut m: IDMap<String, i32> = IDMap::new();
    let id = m.insert("k", |k: &str| (k.to_string(), 5));
    assert_eq!(m.remove(id), Some(Some(5)));
    assert_eq!(m.remove(id), None);

    let id = m.insert("k", |k: &str| (k.to_string(), 6));
    m.insert("k", |k: &str| (k.to_string(), 60));
    assert_eq!(m.remove(id), Some(None));
    assert_eq!(m.usage(id), 1);
    assert_eq!(m.remove(id), Some(Some(6)));
    assert_eq!(m.count(), 0);
}

#[test]
fn remove_absent_index() {
    let mut m = abc();
    assert_eq!(m.remove(17), None);
    assert_eq!(m.usage(17), 0);
    assert!(m.at(17).is_none());
    assert_eq!(m.count(), 3);
}

#[test]
fn index_stability() {
    let mut m = abc();
    let a = m.get(&"a").unwrap().0;
    for i in 0..20 {
        let k = format!("tmp{}", i);
        let id = m.insert(k.clone(), |k: String| (k, 100 + i));
        if i % 2 == 0 {
            assert_eq!(m.remove(id), Some(Some(100 + i)));
        }
    }
    assert_eq!(m.remove(2), Some(Some(3)));
    assert_eq!(*m.get_unchecked(a), 1);
    assert_eq!(m.at(a).map(|(k, v)| (k.clone(), *v)), Some(("a".to_string(), 1)));
}

#[test]
fn free_reuse_accounting() {
    let mut m = abc();
    let before = m.count();
    assert_eq!(m.remove(0), Some(Some(1)));
    assert_eq!(m.count(), before - 1);
    m.insert("z", |k: &str| (k.to_string(), 26));
    assert_eq!(m.count(), before);
}

#[test]
fn duplicate_counts_a_use() {
    let mut m = abc();
    assert!(m.duplicate(2));
    assert!(!m.duplicate(9));
    assert_eq!(m.usage(2), 2);
    assert_eq!(m.remove(2), Some(None));
    assert_eq!(m.remove(2), Some(Some(3)));
}

#[test]
fn key_entries_in_index_order() {
    let mut m = abc();
    m.remove(1);
    let all: Vec<(usize, String, i32)> = m
        .key_entries()
        .into_iter()
        .map(|(i, k, v)| (i, k.clone(), *v))
        .collect();
    assert_eq!(all, vec![(0, "a".to_string(), 1), (2, "c".to_string(), 3)]);
}

#[test]
fn byte_keys() {
    let mut m: IDMap<Vec<u8>, u32> = IDMap::new();
    let a = m.insert(vec![1u8, 2, 3], |k: Vec<u8>| (k, 9));
    let b = m.insert(vec![1u8, 2, 3], |k: Vec<u8>| (k, 10));
    assert_eq!(a, b);
    assert_eq!(m.usage(a), 2);
    assert!(m.get(&vec![1u8, 2]).is_none());
}

#[test]
fn arena_reuses_smallest_hole() {
    let mut a: AllocVec<char> = AllocVec::new();
    for c in ['a', 'b', 'c', 'd'] {
        a.allocate(c);
    }
    a.free(2);
    a.free(0);
    assert_eq!(a.count(), 2);
    assert_eq!(a.allocate('x'), 0);
    assert_eq!(a.allocate('y'), 2);
    assert_eq!(a.allocate('z'), 4);
    assert_eq!(a.raw(), &['x', 'b', 'y', 'd', 'z']);
    assert_eq!(a.get(9), None);
    assert_eq!(a.get(1), Some(&'b'));
}

#[test]
fn arena_list_free_set_pops_last_pushed() {
    let mut a: AllocVec<u8, Vec<usize>> = AllocVec::new();
    for v in 0..5u8 {
        a.allocate(v);
    }
    a.free(1);
    a.free(3);
    assert_eq!(a.allocate(30), 3);
    assert_eq!(a.allocate(10), 1);
    assert!(!a.is_empty());
}

#[test]
fn min_free_set_orders() {
    let mut f = MinFreeSet::new();
    f.push(5);
    f.push(1);
    f.push(3);
    assert_eq!(f.len(), 3);
    assert_eq!(f.peek(), Some(1));
    assert_eq!(f.pop(), Some(1));
    assert_eq!(f.pop(), Some(3));
    assert_eq!(f.pop(), Some(5));
    assert_eq!(f.pop(), None);
}

#[test]
fn defragment_compacts() {
    let mut a: AllocVec<u32> = AllocVec::new();
    for v in 0..10u32 {
        a.allocate(v * 100);
    }
    for i in [1usize, 4, 8, 9] {
        a.free(i);
    }
    let moves = std::cell::RefCell::new(Vec::new());
    a.defragment(|v: u32, from: usize, to: usize| {
        moves.borrow_mut().push((v, from, to));
        v + 1
    });
    assert_eq!(a.raw_len(), 6);
    assert_eq!(a.count(), 6);
    let moves = moves.into_inner();
    assert_eq!(moves, vec![(700, 7, 1), (600, 6, 4)]);
    assert_eq!(a.raw(), &[0, 701, 200, 300, 601, 500]);
    for (v, _, to) in moves {
        assert_eq!(*a.get_unchecked(to), v + 1);
    }
}

#[test]
fn defragment_nothing_free() {
    let mut a: AllocVec<u8, Vec<usize>> = AllocVec::new();
    a.allocate(1);
    a.allocate(2);
    let calls = Cell::new(0);
    a.defragment(|v: u8, _: usize, _: usize| {
        calls.set(calls.get() + 1);
        v
    });
    assert_eq!(calls.get(), 0);
    assert_eq!(a.raw(), &[1, 2]);
}

#[test]
fn defragment_all_free() {
    let mut a: AllocVec<u8> = AllocVec::new();
    a.allocate(1);
    a.allocate(2);
    a.free(0);
    a.free(1);
    assert!(a.is_empty());
    a.defragment(|v: u8, _: usize, _: usize| v);
    assert_eq!(a.raw_len(), 0);
    assert_eq!(a.allocate(3), 0);
}

#[test]
fn values_can_be_changed_in_place() {
    let mut m = abc();
    *m.get_mut(0).unwrap() = 10;
    assert!(m.get_mut(1).is_some());
    assert!(m.get_mut(7).is_none());
    *m.get_unchecked_mut(2) += 30;
    assert_eq!(*m.index(0), 10);
    assert_eq!(*m.index(2), 33);
    assert_eq!(m.get(&"a").map(|(i, _, v)| (i, *v)), Some((0, 10)));
    assert_eq!(m.usage(0), 1);

    let mut a: AllocVec<u8> = AllocVec::new();
    a.allocate(1);
    *a.get_mut(0).unwrap() = 5;
    assert!(a.get_mut(3).is_none());
    *a.get_unchecked_mut(0) += 1;
    assert_eq!(a.raw(), &[6]);
}

#[test]
fn free_sets_drain_sorted() {
    let mut list: Vec<usize> = vec![7, 2, 9, 4];
    assert_eq!(take_sorted(&mut list), vec![2, 4, 7, 9]);
    assert_eq!(FreeSet::len(&list), 0);

    let mut heap = MinFreeSet::new();
    heap.push(3);
    heap.push(0);
    assert_eq!(take_sorted(&mut heap), vec![0, 3]);
    assert_eq!(heap.peek(), None);
}

#[test]
fn entries_updated_in_place() {
    let mut m = abc();
    m.remove(1);
    m.update_values(|i: usize, k: &String, v: i32| v * 10 + i as i32 + k.len() as i32);
    assert_eq!(*m.index(0), 11);
    assert_eq!(*m.index(2), 33);
    assert_eq!(m.usage(0), 1);
    assert_eq!(m.count(), 2);
    match m.at_mut(2) {
        Some((k, v)) => {
            assert_eq!(k, "c");
            *v = -1;
        }
        None => panic!("entry 2 is live"),
    }
    assert_eq!(*m.index(2), -1);
    assert!(m.at_mut(1).is_none());
}
