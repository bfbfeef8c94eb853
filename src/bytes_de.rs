//! The decoder for what `BytesSer` writes.

use vstd::prelude::*;
use crate::bytes_ser::{u16_code, usize_code, zigzag};

verus! {

/// Why decoding failed.
#[derive(Debug, PartialEq, Eq, Structural, Clone, Copy)]
pub enum Error {
    /// A boolean byte was neither 0 nor 1.
    InvalidBool(u8),
    /// The input ended inside a value.
    Eof,
    /// A length asked for more room than the decoder may still allocate.
    AllocExceeded,
    /// A length does not fit in the machine's word.
    Overflow,
}

/// The `u16` at the front of `s` and the number of bytes its code takes,
/// or `None` when `s` ends inside the code.
pub open spec fn u16_decode(s: Seq<u8>) -> Option<(u16, nat)> {
    if s.len() == 0 {
        None
    } else if s[0] < 0x80 {
        Some((s[0] as u16, 1nat))
    } else if s.len() < 2 {
        None
    } else if s[0] == 0x80 && s[1] < 0x80 {
        Some(((s[1] + 0x80) as u16, 2nat))
    } else if s[0] == 0x80 {
        if s.len() < 3 {
            None
        } else {
            Some(((s[1] * 0x100 + s[2]) as u16, 3nat))
        }
    } else {
        Some((((s[0] - 0x80) * 0x100 + s[1]) as u16, 2nat))
    }
}

/// The length at the front of `s` and the number of bytes its code takes,
/// or `None` when `s` ends inside the code.
pub open spec fn usize_decode(s: Seq<u8>) -> Option<(nat, nat)>
    decreases s.len(),
{
    if s.len() == 0 {
        None
    } else if s[0] < 0x80 {
        Some((s[0] as nat, 1nat))
    } else {
        match usize_decode(s.drop_first()) {
            Some((v, n)) => Some(((s[0] as nat) + 0x80 * v, n + 1)),
            None => None,
        }
    }
}

/// Reads values from a byte buffer, front to back, and bounds how many
/// bytes the lengths it reads may claim in all.
pub struct BytesDe {
    data: Vec<u8>,
    pos: usize,
    alloc: usize,
}

impl BytesDe {
    /// The bytes not read yet.
    pub closed spec fn rest(&self) -> Seq<u8> {
        self.data@.subrange(self.pos as int, self.data@.len() as int)
    }

    /// How many more bytes lengths may claim.
    pub closed spec fn budget(&self) -> nat {
        self.alloc as nat
    }

    pub closed spec fn wf(&self) -> bool {
        self.pos <= self.data@.len()
    }

    pub fn with_alloc_limit(data: Vec<u8>, limit: usize) -> (r: Self)
        ensures
            r.wf(),
            r.rest() == data@,
            r.budget() == limit,
    {
        let r = BytesDe { data, pos: 0, alloc: limit };
        proof {
            assert(r.rest() =~= r.data@);
        }
        r
    }

    /// A decoder whose lengths may claim 16 MiB in all.
    pub fn new(data: Vec<u8>) -> (r: Self)
        ensures
            r.wf(),
            r.rest() == data@,
            r.budget() == 0x100_0000,
    {
        Self::with_alloc_limit(data, 0x100_0000)
    }

    /// The bytes not read.
    pub fn end(self) -> (r: Vec<u8>)
        requires
            self.wf(),
        ensures
            r@ == self.rest(),
    {
        let mut r: Vec<u8> = Vec::new();
        let mut i: usize = self.pos;
        while i < self.data.len()
            invariant
                self.pos <= i <= self.data@.len(),
                r@ == self.data@.subrange(self.pos as int, i as int),
            decreases self.data@.len() - i,
        {
            r.push(self.data[i]);
            i = i + 1;
            proof {
                assert(r@ =~= self.data@.subrange(self.pos as int, i as int));
            }
        }
        r
    }

    /// The next byte.
    pub fn byte(&mut self) -> (r: Result<u8, Error>)
        requires
            old(self).wf(),
        ensures
            final(self).wf(),
            final(self).budget() == old(self).budget(),
            old(self).rest().len() == 0 ==> r == Err::<u8, Error>(Error::Eof) && final(self).rest()
                == old(self).rest(),
            old(self).rest().len() > 0 ==> r == Ok::<u8, Error>(old(self).rest()[0]) && final(self).rest() == old(self).rest().drop_first(),
    {
        if self.pos < self.data.len() {
            let b = self.data[self.pos];
            self.pos = self.pos + 1;
            proof {
                assert(self.rest() =~= old(self).rest().drop_first());
            }
            Ok(b)
        } else {
            Err(Error::Eof)
        }
    }

    /// The next `n` bytes; nothing is read when fewer are left.
    pub fn rex(&mut self, n: usize) -> (r: Result<Vec<u8>, Error>)
        requires
            old(self).wf(),
        ensures
            final(self).wf(),
            final(self).budget() == old(self).budget(),
            match r {
                Ok(v) => n <= old(self).rest().len() && v@ == old(self).rest().subrange(0, n as int)
                    && final(self).rest() == old(self).rest().subrange(
                    n as int,
                    old(self).rest().len() as int,
                ),
                Err(e) => e == Error::Eof && n > old(self).rest().len() && final(self).rest() == old(self).rest(),
            },
    {
        if n > self.data.len() - self.pos {
            return Err(Error::Eof);
        }
        let mut v: Vec<u8> = Vec::new();
        let start = self.pos;
        let total = self.data.len();
        while v.len() < n
            invariant
                total == self.data@.len(),
                start == old(self).pos,
                self.data == old(self).data,
                self.alloc == old(self).alloc,
                self.pos == start + v@.len(),
                v@.len() <= n,
                start + n <= self.data@.len(),
                v@ == self.data@.subrange(start as int, self.pos as int),
            decreases n - v@.len(),
        {
            v.push(self.data[self.pos]);
            self.pos = self.pos + 1;
            proof {
                assert(v@ =~= self.data@.subrange(start as int, self.pos as int));
            }
        }
        proof {
            assert(v@ =~= old(self).rest().subrange(0, n as int));
            assert(self.rest() =~= old(self).rest().subrange(n as int, old(self).rest().len() as int));
        }
        Ok(v)
    }

    /// Takes `n` bytes from what lengths may still claim.
    pub fn consume_alloc(&mut self, n: usize) -> (r: Result<(), Error>)
        requires
            old(self).wf(),
        ensures
            final(self).wf(),
            final(self).rest() == old(self).rest(),
            n > old(self).budget() ==> r == Err::<(), Error>(Error::AllocExceeded) && final(self).budget() == old(self).budget(),
            n <= old(self).budget() ==> r == Ok::<(), Error>(()) && final(self).budget() == old(self).budget() - n,
    {
        if n > self.alloc {
            Err(Error::AllocExceeded)
        } else {
            self.alloc = self.alloc - n;
            Ok(())
        }
    }

    /// Reads a `u16` written by `BytesSer::ser_u16`.
    pub fn de_u16(&mut self) -> (r: Result<u16, Error>)
        requires
            old(self).wf(),
        ensures
            final(self).wf(),
            final(self).budget() == old(self).budget(),
            match u16_decode(old(self).rest()) {
                Some((v, n)) => r == Ok::<u16, Error>(v) && final(self).rest() == old(self).rest().subrange(n as int, old(self).rest().len() as int),
                None => r == Err::<u16, Error>(Error::Eof),
            },
    {
        let ghost s = self.rest();
        let b0 = match self.byte() {
            Ok(b) => b,
            Err(e) => return Err(e),
        };
        if b0 < 0x80 {
            proof {
                assert(self.rest() =~= s.subrange(1, s.len() as int));
            }
            return Ok(b0 as u16);
        }
        let b1 = match self.byte() {
            Ok(b) => b,
            Err(e) => return Err(e),
        };
        if b0 == 0x80 && b1 < 0x80 {
            proof {
                assert(self.rest() =~= s.subrange(2, s.len() as int));
            }
            Ok(b1 as u16 + 0x80)
        } else if b0 == 0x80 {
            let b2 = match self.byte() {
                Ok(b) => b,
                Err(e) => return Err(e),
            };
            proof {
                assert(self.rest() =~= s.subrange(3, s.len() as int));
            }
            Ok(b1 as u16 * 0x100 + b2 as u16)
        } else {
            proof {
                assert(self.rest() =~= s.subrange(2, s.len() as int));
            }
            Ok((b0 as u16 - 0x80) * 0x100 + b1 as u16)
        }
    }

    /// Reads a length written by `BytesSer::ser_usize`; one too large for
    /// `usize` is an `Overflow`.
    pub fn de_usize(&mut self) -> (r: Result<usize, Error>)
        requires
            old(self).wf(),
        ensures
            final(self).wf(),
            final(self).budget() == old(self).budget(),
            match usize_decode(old(self).rest()) {
                Some((v, n)) => if v <= usize::MAX {
                    r == Ok::<usize, Error>(v as usize) && final(self).rest() == old(self).rest().subrange(n as int, old(self).rest().len() as int)
                } else {
                    r == Err::<usize, Error>(Error::Overflow)
                },
                None => r == Err::<usize, Error>(Error::Eof),
            },
        decreases old(self).rest().len(),
    {
        let ghost s = self.rest();
        let b = match self.byte() {
            Ok(b) => b,
            Err(e) => return Err(e),
        };
        proof {
            assert(self.rest() =~= s.drop_first());
        }
        if b < 0x80 {
            proof {
                assert(self.rest() =~= s.subrange(1, s.len() as int));
            }
            return Ok(b as usize);
        }
        let inner = self.de_usize();
        match inner {
            Ok(v) => {
                if v > (usize::MAX - b as usize) / 0x80 {
                    proof {
                        let (w, n) = usize_decode(s.drop_first())->Some_0;
                        assert(w == v);
                        assert((b as nat) + 0x80 * w > usize::MAX) by (nonlinear_arith)
                            requires
                                w > (usize::MAX - b as nat) / 0x80,
                                b < 0x100,
                        ;
                    }
                    Err(Error::Overflow)
                } else {
                    proof {
                        let (w, n) = usize_decode(s.drop_first())->Some_0;
                        lemma_usize_decode_len(s.drop_first());
                        assert(s.drop_first().subrange(n as int, s.drop_first().len() as int)
                            =~= s.subrange(n + 1int, s.len() as int));
                        assert(0x80 * v <= usize::MAX - b as nat) by (nonlinear_arith)
                            requires
                                v <= (usize::MAX - b as nat) / 0x80,
                        ;
                    }
                    Ok(b as usize + 0x80 * v)
                }
            },
            Err(e) => {
                proof {
                    match usize_decode(s.drop_first()) {
                        Some((w, n)) => {
                            assert(w > usize::MAX);
                            assert((b as nat) + 0x80 * w > usize::MAX) by (nonlinear_arith)
                                requires
                                    w > usize::MAX,
                            ;
                        },
                        None => {},
                    }
                }
                Err(e)
            },
        }
    }

    /// Reads a length and claims that many bytes from the budget.
    pub fn de_usize_alloc(&mut self) -> (r: Result<usize, Error>)
        requires
            old(self).wf(),
        ensures
            final(self).wf(),
            match r {
                Ok(n) => {
                    &&& usize_decode(old(self).rest()) is Some
                    &&& usize_decode(old(self).rest())->Some_0.0 == n
                    &&& n <= old(self).budget()
                    &&& final(self).budget() == old(self).budget() - n
                    &&& final(self).rest() == old(self).rest().subrange(
                        usize_decode(old(self).rest())->Some_0.1 as int,
                        old(self).rest().len() as int,
                    )
                },
                Err(_) => true,
            },
            usize_decode(old(self).rest()) is Some && usize_decode(old(self).rest())->Some_0.0
                <= old(self).budget() ==> r is Ok,
    {
        let len = match self.de_usize() {
            Ok(n) => n,
            Err(e) => return Err(e),
        };
        match self.consume_alloc(len) {
            Ok(()) => Ok(len),
            Err(e) => Err(e),
        }
    }

    /// Reads a length, then that many bytes.
    pub fn de_usize_buf(&mut self) -> (r: Result<Vec<u8>, Error>)
        requires
            old(self).wf(),
        ensures
            final(self).wf(),
            match r {
                Ok(v) => {
                    let (n, k) = usize_decode(old(self).rest())->Some_0;
                    &&& usize_decode(old(self).rest()) is Some
                    &&& v@.len() == n
                    &&& v@ == old(self).rest().subrange(k as int, (k + n) as int)
                },
                Err(_) => true,
            },
    {
        let ghost s = self.rest();
        let n = match self.de_usize_alloc() {
            Ok(n) => n,
            Err(e) => return Err(e),
        };
        let ghost mid = self.rest();
        let r = self.rex(n);
        proof {
            if r is Ok {
                let (m, k) = usize_decode(s)->Some_0;
                lemma_usize_decode_len(s);
                assert(mid == s.subrange(k as int, s.len() as int));
                assert(r->Ok_0@ =~= s.subrange(k as int, (k + n) as int));
            }
        }
        r
    }

    /// Reads an `i16` written by `BytesSer::serialize_i16`.
    pub fn de_i16(&mut self) -> (r: Result<i16, Error>)
        requires
            old(self).wf(),
        ensures
            final(self).wf(),
            final(self).budget() == old(self).budget(),
            match u16_decode(old(self).rest()) {
                Some((u, n)) => r == Ok::<i16, Error>(unzigzag16(u)) && final(self).rest() == old(
                    self,
                ).rest().subrange(n as int, old(self).rest().len() as int),
                None => r == Err::<i16, Error>(Error::Eof),
            },
    {
        match self.de_u16() {
            Ok(u) => {
                if u % 2 == 1 {
                    Ok((-((u / 2) as i32) - 1) as i16)
                } else {
                    Ok((u / 2) as i16)
                }
            },
            Err(e) => Err(e),
        }
    }

    /// `top` followed by the next `n` bytes, as `be_from` reads them;
    /// nothing is read when fewer are left.
    fn read_from(&mut self, top: u8, n: usize) -> (r: Result<u128, Error>)
        requires
            old(self).wf(),
            n <= 15,
        ensures
            final(self).wf(),
            final(self).budget() == old(self).budget(),
            n > old(self).rest().len() ==> r == Err::<u128, Error>(Error::Eof),
            n <= old(self).rest().len() ==> {
                &&& r == Ok::<u128, Error>(
                    be_from(top as nat, old(self).rest().subrange(0, n as int)) as u128,
                )
                &&& be_from(top as nat, old(self).rest().subrange(0, n as int)) < pow256(
                    (n + 1) as nat,
                )
                &&& final(self).rest() == old(self).rest().subrange(
                    n as int,
                    old(self).rest().len() as int,
                )
            },
    {
        let bytes = match self.rex(n) {
            Ok(b) => b,
            Err(e) => return Err(e),
        };
        let mut acc: u128 = top as u128;
        let mut j: usize = 0;
        proof {
            lemma_pow256_values();
            assert(bytes@.subrange(0, 0) =~= Seq::<u8>::empty());
        }
        while j < bytes.len()
            invariant
                bytes@.len() == n <= 15,
                j <= n,
                acc as nat == be_from(top as nat, bytes@.subrange(0, j as int)),
                pow256(16) == 0x1_0000_0000_0000_0000_0000_0000_0000_0000,
            decreases n - j,
        {
            proof {
                lemma_be_from_bound(top as nat, bytes@.subrange(0, j as int));
                lemma_pow256_mono((j + 1) as nat, 15);
                assert(acc * 256 + 255 < pow256(16)) by (nonlinear_arith)
                    requires
                        acc < pow256((j + 1) as nat),
                        pow256((j + 1) as nat) <= pow256(15),
                        pow256(16) == 256 * pow256(15),
                ;
                assert(bytes@.subrange(0, j + 1).drop_last() =~= bytes@.subrange(0, j as int));
            }
            acc = acc * 256 + bytes[j] as u128;
            j = j + 1;
        }
        proof {
            assert(bytes@.subrange(0, n as int) =~= bytes@);
            lemma_be_from_bound(top as nat, bytes@);
        }
        Ok(acc)
    }

    /// Reads a `u32` written by `BytesSer::ser_u32`.
    pub fn de_u32(&mut self) -> (r: Result<u32, Error>)
        requires
            old(self).wf(),
        ensures
            final(self).wf(),
            final(self).budget() == old(self).budget(),
            match u32_decode(old(self).rest()) {
                Some((v, n)) => r == Ok::<u32, Error>(v) && final(self).rest() == old(
                    self,
                ).rest().subrange(n as int, old(self).rest().len() as int),
                None => r == Err::<u32, Error>(Error::Eof),
            },
    {
        let ghost s = self.rest();
        let head = match self.byte() {
            Ok(b) => b,
            Err(e) => return Err(e),
        };
        proof {
            assert(self.rest() =~= s.subrange(1, s.len() as int));
            lemma_pow256_values();
        }
        if head >> 6u8 == 0 {
            return Ok(head as u32);
        }
        let (top, extra, skip) = if head & 0b11_1111u8 == 0 {
            let next = match self.byte() {
                Ok(b) => b,
                Err(e) => return Err(e),
            };
            proof {
                assert(self.rest() =~= s.subrange(2, s.len() as int));
                assert(head >> 7u8 <= 1) by (bit_vector);
            }
            let ns = head >> 7u8;
            let extra = ((head | (next >> 2u8)) >> (4u8 + ns)) & 0b11u8;
            let top = (next & !(extra << (ns + 6u8))) | (0b100_0000u8 << ns);
            (top, extra, 2usize)
        } else {
            (head & 0b11_1111u8, head >> 6u8, 1usize)
        };
        proof {
            assert(extra <= 3) by {
                assert((head >> 6u8) <= 3) by (bit_vector);
                assert(forall|x: u8| #[trigger] (x & 0b11u8) <= 3) by (bit_vector);
            }
        }
        let ghost mid = self.rest();
        match self.read_from(top, extra as usize) {
            Ok(v) => {
                proof {
                    assert(mid.subrange(0, extra as int) =~= s.subrange(skip as int, skip + extra));
                    assert(self.rest() =~= s.subrange(skip + extra, s.len() as int));
                    lemma_pow256_mono((extra + 1) as nat, 4);
                }
                Ok(v as u32)
            },
            Err(e) => Err(e),
        }
    }

    /// Reads a `u64` written by `BytesSer::ser_u64`.
    pub fn de_u64(&mut self) -> (r: Result<u64, Error>)
        requires
            old(self).wf(),
        ensures
            final(self).wf(),
            final(self).budget() == old(self).budget(),
            match u64_decode(old(self).rest()) {
                Some((v, n)) => r == Ok::<u64, Error>(v) && final(self).rest() == old(
                    self,
                ).rest().subrange(n as int, old(self).rest().len() as int),
                None => r == Err::<u64, Error>(Error::Eof),
            },
    {
        let ghost s = self.rest();
        let head = match self.byte() {
            Ok(b) => b,
            Err(e) => return Err(e),
        };
        proof {
            assert(self.rest() =~= s.subrange(1, s.len() as int));
            lemma_pow256_values();
        }
        if head >> 5u8 == 0 {
            return Ok(head as u64);
        }
        let (top, extra, skip) = if head & 0b1_1111u8 == 0 {
            let next = match self.byte() {
                Ok(b) => b,
                Err(e) => return Err(e),
            };
            proof {
                assert(self.rest() =~= s.subrange(2, s.len() as int));
            }
            let shift: u8 = if head >= 128 {
                0
            } else if head >= 64 {
                1
            } else if head >= 32 {
                2
            } else {
                3
            };
            proof {
                assert(head >> 5u8 != 0 ==> head >= 32) by (bit_vector);
            }
            let extra = ((head | (next >> 3u8)) >> (4u8 - shift)) & 0b111u8;
            let top = (next & (0x7Fu8 >> shift)) | (0x80u8 >> shift);
            (top, extra, 2usize)
        } else {
            (head & 0b1_1111u8, head >> 5u8, 1usize)
        };
        proof {
            assert(extra <= 7) by {
                assert((head >> 5u8) <= 7) by (bit_vector);
                assert(forall|x: u8| #[trigger] (x & 0b111u8) <= 7) by (bit_vector);
            }
        }
        let ghost mid = self.rest();
        match self.read_from(top, extra as usize) {
            Ok(v) => {
                proof {
                    assert(mid.subrange(0, extra as int) =~= s.subrange(skip as int, skip + extra));
                    assert(self.rest() =~= s.subrange(skip + extra, s.len() as int));
                    lemma_pow256_mono((extra + 1) as nat, 8);
                }
                Ok(v as u64)
            },
            Err(e) => Err(e),
        }
    }

    /// Reads a `u128` written by `BytesSer::ser_u128`.
    pub fn de_u128(&mut self) -> (r: Result<u128, Error>)
        requires
            old(self).wf(),
        ensures
            final(self).wf(),
            final(self).budget() == old(self).budget(),
            match u128_decode(old(self).rest()) {
                Some((v, n)) => r == Ok::<u128, Error>(v) && final(self).rest() == old(
                    self,
                ).rest().subrange(n as int, old(self).rest().len() as int),
                None => r == Err::<u128, Error>(Error::Eof),
            },
    {
        let ghost s = self.rest();
        let head = match self.byte() {
            Ok(b) => b,
            Err(e) => return Err(e),
        };
        proof {
            assert(self.rest() =~= s.subrange(1, s.len() as int));
            lemma_pow256_values();
        }
        if head >> 4u8 == 0 {
            return Ok(head as u128);
        }
        let (top, extra, skip) = if head & 0b1111u8 == 0 {
            let next = match self.byte() {
                Ok(b) => b,
                Err(e) => return Err(e),
            };
            proof {
                assert(self.rest() =~= s.subrange(2, s.len() as int));
            }
            let shift: u8 = if head >= 128 {
                0
            } else if head >= 64 {
                1
            } else if head >= 32 {
                2
            } else {
                3
            };
            proof {
                assert(head >> 4u8 != 0 ==> head >= 16) by (bit_vector);
            }
            let extra = ((head | (next >> 4u8)) >> (3u8 - shift)) & 0b1111u8;
            let top = (next & (0x7Fu8 >> shift)) | (0x80u8 >> shift);
            (top, extra, 2usize)
        } else {
            (head & 0b1111u8, head >> 4u8, 1usize)
        };
        proof {
            assert(extra <= 15) by {
                assert((head >> 4u8) <= 15) by (bit_vector);
                assert(forall|x: u8| #[trigger] (x & 0b1111u8) <= 15) by (bit_vector);
            }
        }
        let ghost mid = self.rest();
        match self.read_from(top, extra as usize) {
            Ok(v) => {
                proof {
                    assert(mid.subrange(0, extra as int) =~= s.subrange(skip as int, skip + extra));
                    assert(self.rest() =~= s.subrange(skip + extra, s.len() as int));
                }
                Ok(v)
            },
            Err(e) => Err(e),
        }
    }

    /// Reads an `i32` written by `BytesSer::serialize_i32`.
    pub fn de_i32(&mut self) -> (r: Result<i32, Error>)
        requires
            old(self).wf(),
        ensures
            final(self).wf(),
            final(self).budget() == old(self).budget(),
            match u32_decode(old(self).rest()) {
                Some((u, n)) => r == Ok::<i32, Error>(unzigzag(u as nat) as i32) && final(self).rest() == old(self).rest().subrange(n as int, old(self).rest().len() as int),
                None => r == Err::<i32, Error>(Error::Eof),
            },
    {
        match self.de_u32() {
            Ok(u) => {
                if u % 2 == 1 {
                    Ok((-((u / 2) as i64) - 1) as i32)
                } else {
                    Ok((u / 2) as i32)
                }
            },
            Err(e) => Err(e),
        }
    }

    /// Reads an `i64` written by `BytesSer::serialize_i64`.
    pub fn de_i64(&mut self) -> (r: Result<i64, Error>)
        requires
            old(self).wf(),
        ensures
            final(self).wf(),
            final(self).budget() == old(self).budget(),
            match u64_decode(old(self).rest()) {
                Some((u, n)) => r == Ok::<i64, Error>(unzigzag(u as nat) as i64) && final(self).rest() == old(self).rest().subrange(n as int, old(self).rest().len() as int),
                None => r == Err::<i64, Error>(Error::Eof),
            },
    {
        match self.de_u64() {
            Ok(u) => {
                if u % 2 == 1 {
                    Ok((-((u / 2) as i128) - 1) as i64)
                } else {
                    Ok((u / 2) as i64)
                }
            },
            Err(e) => Err(e),
        }
    }

    /// Reads an `i128` written by `BytesSer::serialize_i128`.
    pub fn de_i128(&mut self) -> (r: Result<i128, Error>)
        requires
            old(self).wf(),
        ensures
            final(self).wf(),
            final(self).budget() == old(self).budget(),
            match u128_decode(old(self).rest()) {
                Some((u, n)) => r == Ok::<i128, Error>(unzigzag(u as nat) as i128) && final(self).rest() == old(self).rest().subrange(n as int, old(self).rest().len() as int),
                None => r == Err::<i128, Error>(Error::Eof),
            },
    {
        match self.de_u128() {
            Ok(u) => {
                if u % 2 == 1 {
                    Ok(-((u / 2) as i128) - 1)
                } else {
                    Ok((u / 2) as i128)
                }
            },
            Err(e) => Err(e),
        }
    }

    /// Reads a boolean: one byte, 0 or 1.
    pub fn de_bool(&mut self) -> (r: Result<bool, Error>)
        requires
            old(self).wf(),
        ensures
            final(self).wf(),
            old(self).rest().len() == 0 ==> r == Err::<bool, Error>(Error::Eof),
            old(self).rest().len() > 0 ==> r == match old(self).rest()[0] {
                0 => Ok::<bool, Error>(false),
                1 => Ok::<bool, Error>(true),
                b => Err::<bool, Error>(Error::InvalidBool(b)),
            },
    {
        match self.byte() {
            Ok(0) => Ok(false),
            Ok(1) => Ok(true),
            Ok(b) => Err(Error::InvalidBool(b)),
            Err(e) => Err(e),
        }
    }
}

/// A decoded length's code lies within the input.
proof fn lemma_usize_decode_len(s: Seq<u8>)
    ensures
        usize_decode(s) is Some ==> 1 <= usize_decode(s)->Some_0.1 <= s.len(),
    decreases s.len(),
{
    if s.len() > 0 && s[0] >= 0x80 {
        lemma_usize_decode_len(s.drop_first());
    }
}

/// The inverse of the zigzag map: odd values are negative.
pub open spec fn unzigzag(u: nat) -> int {
    if u % 2 == 1 {
        -((u / 2) as int) - 1
    } else {
        (u / 2) as int
    }
}

/// The inverse of the zigzag map on `u16`: odd values are negative.
pub open spec fn unzigzag16(u: u16) -> i16 {
    if u % 2 == 1 {
        (-((u / 2) as int) - 1) as i16
    } else {
        (u / 2) as i16
    }
}

/// Undoing the zigzag map after applying it gives back every `i16`.
pub proof fn law_i16_zigzag(v: i16)
    ensures
        zigzag(v as int) <= u16::MAX,
        unzigzag16(zigzag(v as int) as u16) == v,
{
}

/// `top` followed by the digits `bytes`, read as a base-256 number, most
/// significant digit first.
pub open spec fn be_from(top: nat, bytes: Seq<u8>) -> nat
    decreases bytes.len(),
{
    if bytes.len() == 0 {
        top
    } else {
        be_from(top, bytes.drop_last()) * 256 + bytes.last() as nat
    }
}

pub open spec fn pow256(n: nat) -> nat
    decreases n,
{
    if n == 0 {
        1
    } else {
        256 * pow256((n - 1) as nat)
    }
}

/// Number of leading zero bits of a tag byte of at least 16.
pub open spec fn tag_zeros(h: u8) -> u8 {
    if h >= 128 {
        0
    } else if h >= 64 {
        1
    } else if h >= 32 {
        2
    } else {
        3
    }
}

/// The `u32` at the front of `s` and the length of its code, or `None` when
/// `s` ends inside the code. Below 64 the first byte is the value; else its
/// top two bits count the bytes that follow, unless its low six bits are
/// zero, in which case the count is split between it and the next byte.
pub open spec fn u32_decode(s: Seq<u8>) -> Option<(u32, nat)> {
    if s.len() == 0 {
        None
    } else if s[0] >> 6u8 == 0 {
        Some((s[0] as u32, 1nat))
    } else if s[0] & 0b11_1111u8 == 0 {
        if s.len() < 2 {
            None
        } else {
            let h = s[0];
            let n = s[1];
            let ns = h >> 7u8;
            let extra = ((h | (n >> 2u8)) >> ((4 + ns) as u8)) & 0b11u8;
            let top = (n & !(extra << ((ns + 6) as u8))) | (0b100_0000u8 << ns);
            if s.len() < 2 + extra {
                None
            } else {
                Some(
                    (
                        be_from(top as nat, s.subrange(2, 2 + extra)) as u32,
                        (2 + extra) as nat,
                    ),
                )
            }
        }
    } else {
        let extra = s[0] >> 6u8;
        if s.len() < 1 + extra {
            None
        } else {
            Some(
                (
                    be_from((s[0] & 0b11_1111u8) as nat, s.subrange(1, 1 + extra)) as u32,
                    (1 + extra) as nat,
                ),
            )
        }
    }
}

/// The `u64` at the front of `s` and the length of its code, as
/// `u32_decode` reads a `u32`, with a three-bit count.
pub open spec fn u64_decode(s: Seq<u8>) -> Option<(u64, nat)> {
    if s.len() == 0 {
        None
    } else if s[0] >> 5u8 == 0 {
        Some((s[0] as u64, 1nat))
    } else if s[0] & 0b1_1111u8 == 0 {
        if s.len() < 2 {
            None
        } else {
            let h = s[0];
            let n = s[1];
            let shift = tag_zeros(h);
            let extra = ((h | (n >> 3u8)) >> ((4 - shift) as u8)) & 0b111u8;
            let top = (n & (0x7Fu8 >> shift)) | (0x80u8 >> shift);
            if s.len() < 2 + extra {
                None
            } else {
                Some(
                    (
                        be_from(top as nat, s.subrange(2, 2 + extra)) as u64,
                        (2 + extra) as nat,
                    ),
                )
            }
        }
    } else {
        let extra = s[0] >> 5u8;
        if s.len() < 1 + extra {
            None
        } else {
            Some(
                (
                    be_from((s[0] & 0b1_1111u8) as nat, s.subrange(1, 1 + extra)) as u64,
                    (1 + extra) as nat,
                ),
            )
        }
    }
}

/// The `u128` at the front of `s` and the length of its code, as
/// `u32_decode` reads a `u32`, with a four-bit count.
pub open spec fn u128_decode(s: Seq<u8>) -> Option<(u128, nat)> {
    if s.len() == 0 {
        None
    } else if s[0] >> 4u8 == 0 {
        Some((s[0] as u128, 1nat))
    } else if s[0] & 0b1111u8 == 0 {
        if s.len() < 2 {
            None
        } else {
            let h = s[0];
            let n = s[1];
            let shift = tag_zeros(h);
            let extra = ((h | (n >> 4u8)) >> ((3 - shift) as u8)) & 0b1111u8;
            let top = (n & (0x7Fu8 >> shift)) | (0x80u8 >> shift);
            if s.len() < 2 + extra {
                None
            } else {
                Some(
                    (
                        be_from(top as nat, s.subrange(2, 2 + extra)) as u128,
                        (2 + extra) as nat,
                    ),
                )
            }
        }
    } else {
        let extra = s[0] >> 4u8;
        if s.len() < 1 + extra {
            None
        } else {
            Some(
                (
                    be_from((s[0] & 0b1111u8) as nat, s.subrange(1, 1 + extra)) as u128,
                    (1 + extra) as nat,
                ),
            )
        }
    }
}

/// Reading `n` more digits after `top` stays below `256^(n+1)`.
proof fn lemma_be_from_bound(top: nat, bytes: Seq<u8>)
    requires
        top < 256,
    ensures
        be_from(top, bytes) < pow256(bytes.len() + 1),
    decreases bytes.len(),
{
    assert(pow256((bytes.len() + 1) as nat) == 256 * pow256(bytes.len() as nat));
    if bytes.len() == 0 {
        assert(pow256(0) == 1);
    } else {
        lemma_be_from_bound(top, bytes.drop_last());
        let a = be_from(top, bytes.drop_last());
        let p = pow256(bytes.len() as nat);
        assert(p == pow256((bytes.drop_last().len() + 1) as nat));
        assert(a * 256 + bytes.last() < p * 256) by (nonlinear_arith)
            requires
                a < p,
                bytes.last() < 256,
        ;
    }
}

proof fn lemma_pow256_mono(a: nat, b: nat)
    requires
        a <= b,
    ensures
        pow256(a) <= pow256(b),
    decreases b,
{
    if a < b {
        lemma_pow256_mono(a, (b - 1) as nat);
    }
}

proof fn lemma_pow256_values()
    ensures
        pow256(4) == 0x1_0000_0000,
        pow256(8) == 0x1_0000_0000_0000_0000,
        pow256(16) == 0x1_0000_0000_0000_0000_0000_0000_0000_0000,
{
    reveal_with_fuel(pow256, 17);
}

/// Decoding the code of a `u16` followed by anything gives the value back
/// and stops where the code ends.
pub proof fn law_u16_round_trip(v: u16, rest: Seq<u8>)
    ensures
        u16_decode(u16_code(v) + rest) == Some((v, u16_code(v).len())),
{
    let s = u16_code(v) + rest;
    if v < 0x80 {
    } else if v < 0x100 {
        assert(s[1] == (v % 0x80) as u8);
    } else if v < 0x8000 {
        assert(s[0] == (0x80 + v / 0x100) as u8);
        assert(s[1] == (v % 0x100) as u8);
        assert((s[0] - 0x80) * 0x100 + s[1] == v);
    } else {
        assert(s[1] == (v / 0x100) as u8);
        assert(s[2] == (v % 0x100) as u8);
    }
}

/// Decoding the code of a length followed by anything gives the length
/// back and stops where the code ends.
pub proof fn law_usize_round_trip(v: nat, rest: Seq<u8>)
    ensures
        usize_decode(usize_code(v) + rest) == Some((v, usize_code(v).len())),
    decreases v,
{
    let s = usize_code(v) + rest;
    if v >= 0x80 {
        let w = ((v - 0x80) as nat) / 0x80;
        law_usize_round_trip(w, rest);
        assert(s.drop_first() =~= usize_code(w) + rest);
        assert(s[0] == (0x80 + v % 0x80) as u8);
    }
}

} // verus!
