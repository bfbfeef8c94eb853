use dedup_arena::bytes_ser::BytesSer;

fn f(line: &mut String, g: impl Fn(u128, &mut BytesSer)) {
    let mut t0 = BytesSer::new();
    let mut t1 = BytesSer::new();
    g(0, &mut t0);
    g(!0, &mut t1);
    assert_eq!(t0.len(), t1.len());
    for (b0, b1) in t0.bytes().into_iter().zip(t1.bytes()) {
        for bit in (0..8).rev() {
            line.push(
                match ((b0 >> bit) & 1, (b1 >> bit) & 1) {
                    (0, 0) => '0',
                    (1, 1) => '1',
                    (0, 1) => '.',
                    _ => unreachable!(),
                },
            );
        }
        line.push(' ');
    }
}

#[test]
fn ser_test() {
    for i in 0..16 {
        let mut line = format!("{:3}: ", i);
        f(&mut line, |b, v| {
            let n = (((1u16 << i) - 1) & b as u16) | (1u16 << i);
            v.ser_u16(n);
        });
        println!("{}", line);
    }

    println!();

    for i in 0..32 {
        let mut line = format!("{:3}: ", i);
        f(&mut line, |b, v| {
            let n = (((1u32 << i) - 1) & b as u32) | (1u32 << i);
            v.ser_u32(n);
        });
        println!("{}", line);
    }

    println!();

    for i in 0..64 {
        let mut line = format!("{:3}: ", i);
        f(&mut line, |b, v| {
            let n = (((1u64 << i) - 1) & b as u64) | (1u64 << i);
            v.ser_u64(n);
        });
        println!("{}", line);
    }

    println!();

    for i in 0..128 {
        let mut line = format!("{:3}: ", i);
        f(&mut line, |b, v| {
            let n = (((1u128 << i) - 1) & b as u128) | (1u128 << i);
            v.ser_u128(n);
        });
        println!("{}", line);
    }
}

#[test]
fn u16_codes() {
    let cases: [(u16, &[u8]); 6] = [
        (0, &[0]),
        (0x7F, &[0x7F]),
        (0x80, &[0x80, 0x00]),
        (0xFF, &[0x80, 0x7F]),
        (0x1234, &[0x92, 0x34]),
        (0xABCD, &[0x80, 0xAB, 0xCD]),
    ];
    for (v, code) in cases {
        let mut s = BytesSer::new();
        s.ser_u16(v);
        assert_eq!(s.bytes(), code.to_vec(), "{:#x}", v);
    }
}

#[test]
fn usize_codes() {
    let cases: [(usize, &[u8]); 6] = [
        (0, &[0]),
        (1, &[1]),
        (0x7F, &[0x7F]),
        (0x80, &[0x80, 0x00]),
        (0x81, &[0x81, 0x00]),
        (0x80 + 0x80 * 0x80, &[0x80, 0x80, 0x00]),
    ];
    for (v, code) in cases {
        let mut s = BytesSer::new();
        s.ser_usize(v);
        assert_eq!(s.bytes(), code.to_vec(), "{}", v);
    }
}

#[test]
fn small_values_take_one_byte() {
    let mut s = BytesSer::new();
    s.ser_u32(63);
    s.ser_u64(31);
    s.ser_u128(15);
    assert_eq!(s.bytes(), vec![63, 31, 15]);
    s.clear();
    assert_eq!(s.len(), 0);
    let mut r = BytesSer::reuse_vecs(vec![1, 2, 3]);
    assert_eq!(r.len(), 0);
    r.ser_u32(64);
    assert_eq!(r.len(), 2);
    r.ser_u32(u32::MAX);
    assert_eq!(r.len(), 2 + 5);
}
