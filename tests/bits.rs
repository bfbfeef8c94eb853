use dedup_arena::bits_ext::BitsExt;

#[test]
fn lib_test() {
    {
        assert_eq!(0u32.bit_len(), 0);

        assert_eq!(1u32.bit_len(), 1);

        assert_eq!(2u32.bit_len(), 2);
        assert_eq!(3u32.bit_len(), 2);

        assert_eq!(4u32.bit_len(), 3);
        assert_eq!(5u32.bit_len(), 3);
        assert_eq!(6u32.bit_len(), 3);
        assert_eq!(7u32.bit_len(), 3);

        assert_eq!(8u32.bit_len(), 4);
        assert_eq!(9u32.bit_len(), 4);

        assert_eq!(254u32.bit_len(), 8);
        assert_eq!(255u32.bit_len(), 8);
        assert_eq!(256u32.bit_len(), 9);
        assert_eq!(257u32.bit_len(), 9);
    }

    {
        assert_eq!(0u32.log2ceil(), None);

        assert_eq!(1u32.log2ceil(), Some(0));

        assert_eq!(2u32.log2ceil(), Some(1));

        assert_eq!(3u32.log2ceil(), Some(2));
        assert_eq!(4u32.log2ceil(), Some(2));

        assert_eq!(5u32.log2ceil(), Some(3));
        assert_eq!(6u32.log2ceil(), Some(3));
        assert_eq!(7u32.log2ceil(), Some(3));
        assert_eq!(8u32.log2ceil(), Some(3));
        assert_eq!(9u32.log2ceil(), Some(4));

        assert_eq!(254u32.log2ceil(), Some(8));
        assert_eq!(255u32.log2ceil(), Some(8));
        assert_eq!(256u32.log2ceil(), Some(8));
        assert_eq!(257u32.log2ceil(), Some(9));
    }
}

#[test]
fn rounding_helpers() {
    assert_eq!(7u32.ceil_div(2), 4);
    assert_eq!(8u32.ceil_div(2), 4);
    assert_eq!(0u64.ceil_div(5), 0);
    assert_eq!(u32::MAX.ceil_div(1), u32::MAX);
    assert_eq!(9u32.ceil_shr(2), 3);
    assert_eq!(8u64.ceil_shr(2), 2);
    assert_eq!(13u32.pad_to_align(8), 16);
    assert_eq!(16u64.pad_to_align(8), 16);
    assert_eq!(0u32.pad_to_align(4), 0);
}

#[test]
fn exact_powers_of_two() {
    assert_eq!(1u32.log2(), Some(0));
    assert_eq!(64u32.log2(), Some(6));
    assert_eq!(65u32.log2(), None);
    assert_eq!(0u32.log2(), None);
    assert_eq!((1u32 << 31).log2(), Some(31));
    assert_eq!(u32::MAX.log2(), None);
    assert_eq!((1u64 << 63).log2(), Some(63));
    assert_eq!(u64::MAX.bit_len(), 64);
    assert_eq!(u64::MAX.log2ceil(), Some(64));
}
