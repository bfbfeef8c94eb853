use dedup_arena::by_key::ByKey;
use dedup_arena::by_ptr::{ByPtr, WeakKey};
use dedup_arena::cvec::CVec;
use dedup_arena::is_default::IsDefault;
use dedup_arena::non_max::NonMax;
use dedup_arena::nop_hasher::{hash, Hasher};
use dedup_arena::num_as::NumAs;
use dedup_arena::option_ext::OptionExt;
use dedup_arena::range_ext::RangeExt;
use dedup_arena::rev_ord::RevOrd;
use dedup_arena::trusted_index::{no_free, TrustedIndex};
use dedup_arena::vec_ext::{ExtendExt, VecExt, VecTrait};

#[test]
fn non_max_round_trip() {
    let mut n = NonMax::none();
    assert!(n.is_none());
    assert_eq!(n.get(), None);
    assert_eq!(n.raw(), usize::MAX);
    assert_eq!(n.replace(4), None);
    assert!(n.is_some());
    assert_eq!(n.raw(), 4);
    assert_eq!(n.take(), Some(4));
    assert_eq!(n.take(), None);
    assert_eq!(NonMax::some(0).unwrap(), 0);
    assert_eq!(NonMax::from_option(Some(9)).get(), Some(9));
    assert_eq!(NonMax::default(), NonMax::none());
}

#[test]
fn rev_ord_reverses() {
    let a = RevOrd::new(1usize);
    let b = RevOrd::new(2usize);
    assert!(b.lt(&a));
    assert!(a.gt(&b));
    assert!(a.ge(&a) && a.le(&a));
    assert_eq!(a.min(b).into_inner(), 2);
    assert_eq!(a.max(b).into_inner(), 1);
}

#[test]
fn by_key_compares_keys_only() {
    let a = ByKey::new(3usize, "x");
    let b = ByKey::new(3usize, "y");
    let c = ByKey::new(4usize, "x");
    assert!(a.same_key(&b));
    assert!(!a.same_key(&c));
    assert!(a.key_lt(&c));
    assert_eq!(c.into_parts(), (4, "x"));
}

#[test]
fn wrappers_hand_back_their_content() {
    let p = ByPtr::new(std::rc::Rc::new(5));
    assert_eq!(**p.get(), 5);
    assert_eq!(*p.into_inner(), 5);
    let rc = std::rc::Rc::new(1);
    let w = WeakKey::new(std::rc::Rc::downgrade(&rc));
    assert_eq!(w.into_inner().upgrade().map(|r| *r), Some(1));
}

#[test]
fn cvec_capacity_is_power_of_two() {
    let mut v: CVec<u32> = CVec::new();
    assert_eq!(v.cap(), 0);
    for i in 0..5 {
        v.push(i);
    }
    assert_eq!(v.len(), 5);
    assert_eq!(v.cap(), 8);
    v.resize(8, 9);
    assert_eq!(v.cap(), 8);
    assert_eq!(v.as_slice(), &[0, 1, 2, 3, 4, 9, 9, 9]);
    v.resize(2, 0);
    assert_eq!(v.as_slice(), &[0, 1]);
    assert_eq!(v.pop(), Some(1));
    v.reserve(100);
    assert_eq!(v.cap(), 1);
    let c = CVec::from_copy(&[1u8, 2, 3]);
    assert_eq!(c.as_slice(), &[1, 2, 3]);
    let mut d = CVec::from_trusted_len(vec!['a', 'b']);
    let mut it = d.drain();
    assert_eq!(d.len(), 0);
    assert_eq!(it.len(), 2);
    assert_eq!(it.next(), Some('a'));
    assert_eq!(it.next(), Some('b'));
    assert_eq!(it.next(), None);
    assert!(it.is_empty());
    let mut e = CVec::from_copy(&[1, 2]);
    e.clear();
    assert_eq!(e.len(), 0);
}

#[test]
fn vec_extensions() {
    let mut v = vec![1u8];
    v.extend_copy_slice(&[2, 3]);
    let mut w = vec![4u8];
    v.extend_append_vec(&mut w);
    assert!(w.is_empty());
    let mut c = CVec::from_copy(&[5u8, 6]);
    v.extend_append_cvec(&mut c);
    assert_eq!(c.len(), 0);
    assert_eq!(v, vec![1, 2, 3, 4, 5, 6]);
    assert_eq!(VecExt::pop(&mut v), Some(6));
    VecTrait::clear(&mut v);
    assert!(v.is_empty());
}

#[test]
fn nop_hasher_digests() {
    let mut h = Hasher::new();
    h.write(&[0x12, 0x34]);
    assert_eq!(h.finish(), 0x1234);
    h.write_u16(7);
    assert_eq!(h.finish(), 7);
    h.write_i8(-1);
    assert_eq!(h.finish(), 0xFF);
    h.write_i64(-1);
    assert_eq!(h.finish(), u64::MAX);
    h.write_u128(1u128 << 64 | 5);
    assert_eq!(h.finish(), 5);
    assert_eq!(hash(42), 42);
    let mut long = Hasher::new();
    long.write(&[1, 2, 3, 4, 5, 6, 7, 8, 9]);
    assert_eq!(long.finish(), 0x0203040506070809);
}

#[test]
fn small_helpers() {
    assert!(0u8.is_default());
    assert!(!5u32.is_default());
    assert!(None::<u8>.is_default());
    assert!(Vec::<u8>::new().is_default());
    assert!((0u64, false).is_default());
    assert!(!Err::<u8, u8>(0).is_default());
    assert!((0..3usize).intersect(&(2..5)));
    assert!(!(0..2usize).intersect(&(2..5)));
    None::<u8>.unwrap_none();
    None::<u8>.expect_none("empty");
    assert_eq!(no_free::<u8>(), 255);
    assert_eq!(<u16 as TrustedIndex>::from_usize(70000), None);
    assert_eq!(<u32 as TrustedIndex>::from_usize(7), Some(7));
    assert_eq!(300u64.to_usize(), Some(300));
}

#[test]
fn value_preserving_casts() {
    let a: u32 = 70000usize.num_as();
    assert_eq!(a, 70000);
    assert_eq!(NumAs::<u32>::try_num_as(1u64 << 40), None);
    assert_eq!(NumAs::<u32>::try_num_as(5u64), Some(5u32));
    assert_eq!(NumAs::<u8>::try_num_as(256u32), None);
    let b: usize = 9u64.num_as();
    assert_eq!(b, 9);
}

#[test]
fn retain_unstable_keeps_approved() {
    let mut v = vec![1u32, 2, 3, 4, 5, 6, 7];
    VecExt::retain_unstable(&mut v, |x: &u32| *x % 2 == 1);
    assert_eq!(v, vec![1, 7, 3, 5]);

    let mut w = vec![2u32, 4];
    VecExt::retain_unstable(&mut w, |x: &u32| *x > 10);
    assert!(w.is_empty());

    let mut e: Vec<u32> = Vec::new();
    VecExt::retain_unstable(&mut e, |_: &u32| false);
    assert!(e.is_empty());
}

#[test]
fn cvec_extensions() {
    let mut c = CVec::from_copy(&[1u8, 2]);
    c.extend_copy_slice(&[3, 4]);
    let mut v = vec![5u8];
    c.extend_append_vec(&mut v);
    let mut d = CVec::from_copy(&[6u8]);
    c.extend_append_cvec(&mut d);
    assert_eq!(c.as_slice(), &[1, 2, 3, 4, 5, 6]);
    assert_eq!(d.len(), 0);
    VecExt::retain_unstable(&mut c, |x: &u8| *x != 2);
    assert_eq!(c.as_slice(), &[1, 6, 3, 4, 5]);
    assert_eq!(VecExt::pop(&mut c), Some(5));
    VecTrait::clear(&mut c);
    assert_eq!(c.len(), 0);
}

#[test]
fn cvec_resize_with_calls_in_order() {
    let next = std::cell::Cell::new(10u32);
    let mut v = CVec::from_copy(&[1u32]);
    v.resize_with(4, || {
        let n = next.get();
        next.set(n + 1);
        n
    });
    assert_eq!(v.as_slice(), &[1, 10, 11, 12]);
    v.resize_with(2, || 0);
    assert_eq!(v.as_slice(), &[1, 10]);
}

#[test]
fn non_max_raw_agrees_with_get() {
    let n = NonMax::some(usize::MAX - 1);
    assert_eq!(n.raw(), usize::MAX - 1);
    assert_eq!(n.get(), Some(usize::MAX - 1));
    assert_eq!(NonMax::none().get(), None);
}
