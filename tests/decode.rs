use dedup_arena::bytes_de::{BytesDe, Error};
use dedup_arena::bytes_ser::BytesSer;

#[test]
fn u16_round_trips() {
    let values: [u16; 9] = [0, 1, 0x7F, 0x80, 0xFF, 0x100, 0x7FFF, 0x8000, 0xFFFF];
    let mut s = BytesSer::new();
    for v in values {
        s.ser_u16(v);
    }
    let mut d = BytesDe::new(s.bytes());
    for v in values {
        assert_eq!(d.de_u16(), Ok(v));
    }
    assert_eq!(d.de_u16(), Err(Error::Eof));
    assert!(d.end().is_empty());
}

#[test]
fn usize_round_trips() {
    let values: [usize; 8] = [0, 1, 0x7F, 0x80, 0x81, 0x407F, 0x4080, usize::MAX];
    let mut s = BytesSer::new();
    for v in values {
        s.ser_usize(v);
    }
    s.ser_u16(7);
    let mut d = BytesDe::new(s.bytes());
    for v in values {
        assert_eq!(d.de_usize(), Ok(v));
    }
    assert_eq!(d.end(), vec![7]);
}

#[test]
fn usize_overflow_and_eof() {
    let mut too_long = vec![0xFFu8; 12];
    too_long.push(0x7F);
    let mut d = BytesDe::new(too_long);
    assert_eq!(d.de_usize(), Err(Error::Overflow));

    let mut d = BytesDe::new(vec![0x80, 0x80]);
    assert_eq!(d.de_usize(), Err(Error::Eof));
}

#[test]
fn bool_bytes() {
    let mut d = BytesDe::new(vec![0, 1, 2]);
    assert_eq!(d.de_bool(), Ok(false));
    assert_eq!(d.de_bool(), Ok(true));
    assert_eq!(d.de_bool(), Err(Error::InvalidBool(2)));
    assert_eq!(d.de_bool(), Err(Error::Eof));
}

#[test]
fn length_prefixed_buffers_and_budget() {
    let mut d = BytesDe::with_alloc_limit(vec![3, 10, 20, 30, 2, 1, 2], 4);
    assert_eq!(d.de_usize_buf(), Ok(vec![10, 20, 30]));
    assert_eq!(d.de_usize_buf(), Err(Error::AllocExceeded));

    let mut d = BytesDe::new(vec![5, 1, 2]);
    assert_eq!(d.de_usize_buf(), Err(Error::Eof));
    assert_eq!(d.end(), vec![1, 2]);
}

#[test]
fn bytes_and_exact_reads() {
    let mut d = BytesDe::new(vec![9, 8, 7]);
    assert_eq!(d.byte(), Ok(9));
    assert_eq!(d.rex(5), Err(Error::Eof));
    assert_eq!(d.rex(2), Ok(vec![8, 7]));
    assert_eq!(d.byte(), Err(Error::Eof));
    assert_eq!(d.consume_alloc(1 << 24), Ok(()));
    assert_eq!(d.consume_alloc(1), Err(Error::AllocExceeded));
}

#[test]
fn signed_values_zigzag() {
    let values: [i16; 7] = [0, -1, 1, -2, 63, i16::MIN, i16::MAX];
    let mut s = BytesSer::new();
    for v in values {
        s.serialize_i16(v);
    }
    let mut d = BytesDe::new(s.bytes());
    for v in values {
        assert_eq!(d.de_i16(), Ok(v));
    }

    let mut s = BytesSer::new();
    s.serialize_i16(-1);
    s.serialize_i16(1);
    s.serialize_i16(-64);
    assert_eq!(s.bytes(), vec![1, 2, 0x7F]);
}

#[test]
fn tagged_primitives() {
    let mut s = BytesSer::new();
    s.serialize_bool(true);
    s.serialize_bool(false);
    s.serialize_u8(200);
    s.serialize_i8(-1);
    s.serialize_none();
    s.serialize_some_tag();
    s.serialize_bytes(&[7, 8]);
    s.ecs(&[1, 2]);
    assert_eq!(s.bytes(), vec![1, 0, 200, 0xFF, 0, 1, 2, 7, 8, 1, 2]);

    let mut t = BytesSer::new();
    t.serialize_i32(-32);
    t.serialize_i64(-16);
    t.serialize_char('a');
    t.serialize_variant_index(3);
    assert_eq!(t.bytes(), vec![63, 31, 0x40, 0x21, 3]);
}

fn wide_values(bits: u32) -> Vec<u128> {
    let mut out = vec![0u128];
    for i in 0..bits {
        let top = 1u128 << i;
        out.push(top);
        out.push(top | (top - 1));
        out.push(top | ((top - 1) & 0x5555_5555_5555_5555_5555_5555_5555_5555));
    }
    out
}

#[test]
fn u32_round_trips() {
    let values: Vec<u32> = wide_values(32).into_iter().map(|v| v as u32).collect();
    let mut s = BytesSer::new();
    for &v in &values {
        s.ser_u32(v);
    }
    s.ser_u16(9);
    let mut d = BytesDe::new(s.bytes());
    for &v in &values {
        assert_eq!(d.de_u32(), Ok(v), "{:#x}", v);
    }
    assert_eq!(d.de_u16(), Ok(9));
}

#[test]
fn u64_round_trips() {
    let values: Vec<u64> = wide_values(64).into_iter().map(|v| v as u64).collect();
    let mut s = BytesSer::new();
    for &v in &values {
        s.ser_u64(v);
    }
    let mut d = BytesDe::new(s.bytes());
    for &v in &values {
        assert_eq!(d.de_u64(), Ok(v), "{:#x}", v);
    }
    assert_eq!(d.de_u64(), Err(Error::Eof));
}

#[test]
fn u128_round_trips() {
    let values = wide_values(128);
    let mut s = BytesSer::new();
    for &v in &values {
        s.ser_u128(v);
    }
    let mut d = BytesDe::new(s.bytes());
    for &v in &values {
        assert_eq!(d.de_u128(), Ok(v), "{:#x}", v);
    }
    assert!(d.end().is_empty());
}

#[test]
fn wide_codes_cut_short() {
    let mut d = BytesDe::new(vec![0xC0]);
    assert_eq!(d.de_u32(), Err(Error::Eof));
    let mut d = BytesDe::new(vec![0x40, 0x21]);
    assert_eq!(d.de_u32(), Ok(97));
    let mut d = BytesDe::new(vec![0xE0]);
    assert_eq!(d.de_u64(), Err(Error::Eof));
}

#[test]
fn signed_wide_round_trips() {
    let mut s = BytesSer::new();
    let a: [i32; 5] = [0, -1, 1, i32::MIN, i32::MAX];
    let b: [i64; 4] = [-32, 31, i64::MIN, i64::MAX];
    let c: [i128; 4] = [-8, 7, i128::MIN, i128::MAX];
    for v in a {
        s.serialize_i32(v);
    }
    for v in b {
        s.serialize_i64(v);
    }
    for v in c {
        s.serialize_i128(v);
    }
    let mut d = BytesDe::new(s.bytes());
    for v in a {
        assert_eq!(d.de_i32(), Ok(v));
    }
    for v in b {
        assert_eq!(d.de_i64(), Ok(v));
    }
    for v in c {
        assert_eq!(d.de_i128(), Ok(v));
    }
    assert!(d.end().is_empty());
}
