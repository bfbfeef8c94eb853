//! A compact binary encoder: small integers take one byte, and an integer
//! takes only as many bytes as its significant bits need, plus a tag.

use vstd::prelude::*;
use vstd::std_specs::bits::u64_leading_zeros;

verus! {

/// Length of the code of an integer of `width` bits, of which `zeros`
/// leading ones are zero, whose tag takes `tag` bits: the bytes its
/// significant bits need, plus one when the tag does not fit in the free
/// high bits of the first of them.
pub open spec fn tagged_len(zeros: nat, width: nat, tag: nat) -> nat {
    let bytes = ((width + 7 - zeros) as nat) / 8;
    bytes + if zeros % 8 < tag {
        1nat
    } else {
        0nat
    }
}

/// Number of leading zero bits of a `u128`.
pub open spec fn u128_zeros(v: u128) -> u32 {
    if v / 0x1_0000_0000_0000_0000 != 0 {
        u64_leading_zeros((v / 0x1_0000_0000_0000_0000) as u64) as u32
    } else {
        (64 + u64_leading_zeros(v as u64)) as u32
    }
}

/// Code of a `u16`: below `0x80` the value itself; below `0x100` a zero tag
/// byte `0x80` and the low seven bits; below `0x8000` the high byte tagged
/// with the top bit, then the low byte; otherwise `0x80` and both bytes.
pub open spec fn u16_code(v: u16) -> Seq<u8> {
    if v < 0x80 {
        seq![v as u8]
    } else if v < 0x100 {
        seq![0x80u8, (v % 0x80) as u8]
    } else if v < 0x8000 {
        seq![(0x80 + v / 0x100) as u8, (v % 0x100) as u8]
    } else {
        seq![0x80u8, (v / 0x100) as u8, (v % 0x100) as u8]
    }
}

/// Code of a length or count: seven bits per byte, low group first, the top
/// bit set on every byte but the last; each continued group also carries
/// one more `0x80`, so that no value has two codes.
pub open spec fn usize_code(v: nat) -> Seq<u8>
    decreases v,
{
    if v < 0x80 {
        seq![v as u8]
    } else {
        seq![(0x80 + v % 0x80) as u8] + usize_code(((v - 0x80) as nat) / 0x80)
    }
}

/// The zigzag map of a signed integer: 0, -1, 1, -2, ... to 0, 1, 2, 3, ...,
/// so that small magnitudes of either sign get short codes.
pub open spec fn zigzag(v: int) -> nat {
    if v < 0 {
        (-2 * v - 1) as nat
    } else {
        (2 * v) as nat
    }
}

/// Writes values into one byte buffer.
#[derive(Clone, Debug, Default)]
pub struct BytesSer {
    buffer: Vec<u8>,
}

impl View for BytesSer {
    type V = Seq<u8>;

    closed spec fn view(&self) -> Seq<u8> {
        self.buffer@
    }
}

impl BytesSer {
    pub fn new() -> (r: Self)
        ensures
            r@ == Seq::<u8>::empty(),
    {
        BytesSer { buffer: Vec::new() }
    }

    /// Starts over in the room `buffer` already has.
    pub fn reuse_vecs(buffer: Vec<u8>) -> (r: Self)
        ensures
            r@ == Seq::<u8>::empty(),
    {
        let mut buffer = buffer;
        buffer.clear();
        BytesSer { buffer }
    }

    /// Number of bytes written.
    pub fn len(&self) -> (r: usize)
        ensures
            r == self@.len(),
    {
        self.buffer.len()
    }

    /// The bytes written, in order.
    pub fn bytes(&self) -> (r: Vec<u8>)
        ensures
            r@ == self@,
    {
        self.buffer.clone()
    }

    pub fn clear(&mut self)
        ensures
            final(self)@ == Seq::<u8>::empty(),
    {
        self.buffer.clear();
    }

    /// Writes the bytes of `s` as they are.
    pub fn ecs(&mut self, s: &[u8])
        ensures
            final(self)@ == old(self)@ + s@,
    {
        let mut i: usize = 0;
        while i < s.len()
            invariant
                i <= s@.len(),
                self.buffer@ == old(self)@ + s@.subrange(0, i as int),
            decreases s@.len() - i,
        {
            self.buffer.push(s[i]);
            i = i + 1;
            proof {
                assert(self.buffer@ =~= old(self)@ + s@.subrange(0, i as int));
            }
        }
        proof {
            assert(s@.subrange(0, s@.len() as int) =~= s@);
        }
    }

    fn e1(&mut self, b: u8)
        ensures
            final(self)@ == old(self)@.push(b),
    {
        self.buffer.push(b);
    }

    /// Writes a length or count; see `usize_code`.
    pub fn ser_usize(&mut self, v: usize)
        ensures
            final(self)@ == old(self)@ + usize_code(v as nat),
    {
        let mut v = v;
        let ghost v0 = v as nat;
        while v >= 0x80
            invariant
                old(self)@ + usize_code(v0) == self@ + usize_code(v as nat),
            decreases v,
        {
            let low = (v % 0x80) as u8;
            self.e1(low | 0x80);
            proof {
                assert(low | 0x80 == 0x80 + low) by (bit_vector)
                    requires
                        low < 0x80,
                ;
                let rest = usize_code(((v - 0x80) as nat) / 0x80);
                assert(usize_code(v as nat) == seq![(0x80 + v % 0x80) as u8] + rest);
                assert(self@ + rest =~= old(self)@ + usize_code(v0));
            }
            v = (v - 0x80) / 0x80;
        }
        self.e1(v as u8);
        proof {
            assert(self@ =~= old(self)@ + usize_code(v0));
        }
    }

    /// Writes a `u16`; see `u16_code`.
    pub fn ser_u16(&mut self, v: u16)
        ensures
            final(self)@ == old(self)@ + u16_code(v),
    {
        if v < 0x80 {
            self.e1(v as u8);
        } else if v < 0x100 {
            self.ecs(&[0x80, (v % 0x80) as u8]);
        } else if v < 0x8000 {
            self.ecs(&[(0x80 + v / 0x100) as u8, (v % 0x100) as u8]);
        } else {
            self.ecs(&[0x80, (v / 0x100) as u8, (v % 0x100) as u8]);
        }
        proof {
            assert(self@ =~= old(self)@ + u16_code(v));
        }
    }

    fn zeros_u128(v: u128) -> (r: u32)
        ensures
            r == u128_zeros(v),
            r <= 128,
            v != 0 ==> r < 128,
    {
        let hi = (v >> 64u128) as u64;
        let lo = v as u64;
        proof {
            assert(v >> 64u128 == v / 0x1_0000_0000_0000_0000) by (bit_vector);
            assert(v >> 64u128 <= u64::MAX) by (bit_vector);
            assert(v / 0x1_0000_0000_0000_0000 == 0 ==> v <= u64::MAX);
        }
        if hi != 0 {
            hi.leading_zeros()
        } else {
            64 + lo.leading_zeros()
        }
    }

    pub fn serialize_bool(&mut self, v: bool)
        ensures
            final(self)@ == old(self)@.push(if v {
                1u8
            } else {
                0u8
            }),
    {
        self.e1(if v {
            1
        } else {
            0
        });
    }

    pub fn serialize_u8(&mut self, v: u8)
        ensures
            final(self)@ == old(self)@.push(v),
    {
        self.e1(v);
    }

    /// Writes the two's complement byte of `v`.
    pub fn serialize_i8(&mut self, v: i8)
        ensures
            final(self)@ == old(self)@.push(v as u8),
    {
        self.e1(v as u8);
    }

    /// Writes `v` through the zigzag map, as a `u16`.
    pub fn serialize_i16(&mut self, v: i16)
        ensures
            final(self)@ == old(self)@ + u16_code(zigzag(v as int) as u16),
    {
        let u: u16 = if v < 0 {
            ((0 - (v as i32)) * 2 - 1) as u16
        } else {
            (2 * (v as i32)) as u16
        };
        self.ser_u16(u);
    }

    /// Writes `v` through the zigzag map, as a `u32`.
    pub fn serialize_i32(&mut self, v: i32)
        ensures
            final(self)@.subrange(0, old(self)@.len() as int) == old(self)@,
            final(self)@.len() == old(self)@.len() + if zigzag(v as int) < 64 {
                1
            } else {
                tagged_len((zigzag(v as int) as u32).leading_zeros() as nat, 32, 2)
            },
    {
        let u: u32 = if v < 0 {
            ((0 - (v as i64)) * 2 - 1) as u32
        } else {
            (2 * (v as i64)) as u32
        };
        self.ser_u32(u);
    }

    /// Writes `v` through the zigzag map, as a `u64`.
    pub fn serialize_i64(&mut self, v: i64)
        ensures
            final(self)@.subrange(0, old(self)@.len() as int) == old(self)@,
            final(self)@.len() == old(self)@.len() + if zigzag(v as int) < 32 {
                1
            } else {
                tagged_len(u64_leading_zeros(zigzag(v as int) as u64) as nat, 64, 3)
            },
    {
        let u: u64 = if v < 0 {
            ((0 - (v as i128)) * 2 - 1) as u64
        } else {
            (2 * (v as i128)) as u64
        };
        self.ser_u64(u);
    }

    /// Writes `v` through the zigzag map, as a `u128`.
    pub fn serialize_i128(&mut self, v: i128)
        ensures
            final(self)@.subrange(0, old(self)@.len() as int) == old(self)@,
            final(self)@.len() == old(self)@.len() + if zigzag(v as int) < 16 {
                1
            } else {
                tagged_len(u128_zeros(zigzag(v as int) as u128) as nat, 128, 4)
            },
    {
        let u: u128 = if v < 0 {
            ((0 - (v + 1)) as u128) * 2 + 1
        } else {
            (v as u128) * 2
        };
        self.ser_u128(u);
    }

    /// Writes a `char` as the `u32` of its scalar value.
    pub fn serialize_char(&mut self, c: char)
        ensures
            final(self)@.subrange(0, old(self)@.len() as int) == old(self)@,
            final(self)@.len() == old(self)@.len() + if (c as u32) < 64 {
                1
            } else {
                tagged_len((c as u32).leading_zeros() as nat, 32, 2)
            },
    {
        self.ser_u32(c as u32);
    }

    /// Writes the length of `v`, then its bytes.
    pub fn serialize_bytes(&mut self, v: &[u8])
        ensures
            final(self)@ == old(self)@ + usize_code(v@.len()) + v@,
    {
        self.ser_usize(v.len());
        self.ecs(v);
    }

    /// Writes the tag of an absent optional value.
    pub fn serialize_none(&mut self)
        ensures
            final(self)@ == old(self)@.push(0u8),
    {
        self.e1(0);
    }

    /// Writes the tag of a present optional value; the value follows.
    pub fn serialize_some_tag(&mut self)
        ensures
            final(self)@ == old(self)@.push(1u8),
    {
        self.e1(1);
    }

    /// Writes the index of an enum variant.
    pub fn serialize_variant_index(&mut self, index: u32)
        ensures
            final(self)@.subrange(0, old(self)@.len() as int) == old(self)@,
            final(self)@.len() == old(self)@.len() + if index < 64 {
                1
            } else {
                tagged_len(index.leading_zeros() as nat, 32, 2)
            },
    {
        self.ser_u32(index);
    }

    /// Writes the low `n` bytes of `w`, most significant first.
    fn push_be(&mut self, w: u128, n: u32)
        requires
            n <= 16,
        ensures
            final(self)@.len() == old(self)@.len() + n,
            final(self)@.subrange(0, old(self)@.len() as int) == old(self)@,
    {
        let mut j: u32 = n;
        while j > 0
            invariant
                j <= n <= 16,
                self@.len() == old(self)@.len() + (n - j),
                self@.subrange(0, old(self)@.len() as int) == old(self)@,
            decreases j,
        {
            j = j - 1;
            self.e1((w >> (8 * j)) as u8);
            proof {
                assert(self@.subrange(0, old(self)@.len() as int) =~= old(self)@);
            }
        }
    }

    /// Writes a `u32`: below 64 in one byte, otherwise in the bytes its
    /// significant bits need, tagged with their count, with one more byte
    /// when the tag does not fit; see `tagged_len`.
    pub fn ser_u32(&mut self, v: u32)
        ensures
            final(self)@.subrange(0, old(self)@.len() as int) == old(self)@,
            final(self)@.len() == old(self)@.len() + if v < 64 {
                1
            } else {
                tagged_len(v.leading_zeros() as nat, 32, 2)
            },
    {
        if v < 64 {
            self.e1(v as u8);
            proof {
                assert(self@.subrange(0, old(self)@.len() as int) =~= old(self)@);
            }
        } else {
            let zeros = v.leading_zeros();
            let bytes_m1 = (32 + 7 - zeros) / 8 - 1;
            let masked = zeros & 0b111;
            proof {
                assert(zeros & 0b111 == zeros % 8) by (bit_vector);
            }
            let mut xor: u32 = bytes_m1 << 6u32;
            if masked <= 1 {
                let shift = (2 - masked) as u8;
                self.e1(((0b1_00000u8 | ((xor as u8) >> 3u8)) << shift) & 0b11_000000u8);
                xor = ((xor ^ 0b1_000000u32) >> 1u32) << (shift as u32);
            }
            let ghost mid = self@;
            let w = v ^ (xor << (bytes_m1 * 8));
            self.push_be(w as u128, bytes_m1 + 1);
            proof {
                assert(self@.subrange(0, old(self)@.len() as int) =~= mid.subrange(
                    0,
                    old(self)@.len() as int,
                ));
            }
        }
    }

    /// Writes a `u64`: below 32 in one byte, otherwise as `ser_u32` does
    /// with a three-bit tag.
    pub fn ser_u64(&mut self, v: u64)
        ensures
            final(self)@.subrange(0, old(self)@.len() as int) == old(self)@,
            final(self)@.len() == old(self)@.len() + if v < 32 {
                1
            } else {
                tagged_len(u64_leading_zeros(v) as nat, 64, 3)
            },
    {
        if v < 32 {
            self.e1(v as u8);
            proof {
                assert(self@.subrange(0, old(self)@.len() as int) =~= old(self)@);
            }
        } else {
            let zeros = v.leading_zeros();
            let bytes_m1 = (64 + 7 - zeros) / 8 - 1;
            let masked = zeros & 0b111;
            proof {
                assert(zeros & 0b111 == zeros % 8) by (bit_vector);
            }
            let mut xor: u64 = (bytes_m1 as u64) << 5u64;
            if masked <= 2 {
                let shift = (3 - masked) as u8;
                self.e1(((0b1_0000u8 | ((xor as u8) >> 4u8)) << shift) & 0b111_00000u8);
                xor = ((xor ^ 0b1_00000u64) >> 1u64) << (shift as u64);
            }
            let ghost mid = self@;
            let w = v ^ (xor << ((bytes_m1 * 8) as u64));
            self.push_be(w as u128, bytes_m1 + 1);
            proof {
                assert(self@.subrange(0, old(self)@.len() as int) =~= mid.subrange(
                    0,
                    old(self)@.len() as int,
                ));
            }
        }
    }

    /// Writes a `u128`: below 16 in one byte, otherwise as `ser_u32` does
    /// with a four-bit tag.
    pub fn ser_u128(&mut self, v: u128)
        ensures
            final(self)@.subrange(0, old(self)@.len() as int) == old(self)@,
            final(self)@.len() == old(self)@.len() + if v < 16 {
                1
            } else {
                tagged_len(u128_zeros(v) as nat, 128, 4)
            },
    {
        if v < 16 {
            self.e1(v as u8);
            proof {
                assert(self@.subrange(0, old(self)@.len() as int) =~= old(self)@);
            }
        } else {
            let zeros = Self::zeros_u128(v);
            let bytes_m1 = (128 + 7 - zeros) / 8 - 1;
            let masked = zeros & 0b111;
            proof {
                assert(zeros & 0b111 == zeros % 8) by (bit_vector);
            }
            let mut xor: u128 = (bytes_m1 as u128) << 4u128;
            if masked <= 3 {
                let shift = (4 - masked) as u8;
                self.e1(((0b1_000u8 | ((xor as u8) >> 5u8)) << shift) & 0b1111_0000u8);
                xor = ((xor ^ 0b1_0000u128) >> 1u128) << (shift as u128);
            }
            let ghost mid = self@;
            let w = v ^ (xor << ((bytes_m1 * 8) as u128));
            self.push_be(w, bytes_m1 + 1);
            proof {
                assert(self@.subrange(0, old(self)@.len() as int) =~= mid.subrange(
                    0,
                    old(self)@.len() as int,
                ));
            }
        }
    }
}

} // verus!
