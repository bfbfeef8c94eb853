//! A hasher for keys that are already well-spread integers: the digest is
//! the integer itself.

use vstd::prelude::*;

verus! {

/// The state after shifting each byte of `s` into `v` from the low end,
/// keeping the low 64 bits.
pub open spec fn shift_in(v: u64, s: Seq<u8>) -> u64
    decreases s.len(),
{
    if s.len() == 0 {
        v
    } else {
        ((shift_in(v, s.drop_last()) as nat * 256 + s.last() as nat) % 0x1_0000_0000_0000_0000) as u64
    }
}

/// Hands back the last integer written to it, or the bytes written to it
/// read as one big-endian number, truncated to 64 bits.
#[derive(Clone, Copy, Debug, PartialEq, Eq, Structural, Default)]
pub struct Hasher(u64);

impl View for Hasher {
    type V = u64;

    closed spec fn view(&self) -> u64 {
        self.0
    }
}

impl Hasher {
    pub fn new() -> (r: Self)
        ensures
            r@ == 0,
    {
        Hasher(0)
    }

    pub fn finish(&self) -> (r: u64)
        ensures
            r == self@,
    {
        self.0
    }

    pub fn write(&mut self, bytes: &[u8])
        ensures
            final(self)@ == shift_in(old(self)@, bytes@),
    {
        let mut i: usize = 0;
        while i < bytes.len()
            invariant
                i <= bytes@.len(),
                self.0 == shift_in(old(self)@, bytes@.subrange(0, i as int)),
            decreases bytes@.len() - i,
        {
            let b = bytes[i];
            let v = self.0;
            let next = (v << 8u64) | (b as u64);
            proof {
                assert((v << 8u64) | (b as u64) == (v % 0x100_0000_0000_0000) * 256 + (b as u64))
                    by (bit_vector);
                assert((v as nat % 0x100_0000_0000_0000) * 256 + b as nat == (v as nat * 256
                    + b as nat) % 0x1_0000_0000_0000_0000) by (nonlinear_arith)
                    requires
                        b < 256,
                ;
                let s = bytes@.subrange(0, i + 1);
                assert(s.drop_last() =~= bytes@.subrange(0, i as int));
            }
            self.0 = next;
            i = i + 1;
        }
        proof {
            assert(bytes@.subrange(0, bytes@.len() as int) =~= bytes@);
        }
    }

    pub fn write_u8(&mut self, i: u8)
        ensures
            final(self)@ == i as u64,
    {
        self.0 = i as u64;
    }

    pub fn write_u16(&mut self, i: u16)
        ensures
            final(self)@ == i as u64,
    {
        self.0 = i as u64;
    }

    pub fn write_u32(&mut self, i: u32)
        ensures
            final(self)@ == i as u64,
    {
        self.0 = i as u64;
    }

    pub fn write_u64(&mut self, i: u64)
        ensures
            final(self)@ == i,
    {
        self.0 = i;
    }

    /// Keeps the low 64 bits.
    pub fn write_u128(&mut self, i: u128)
        ensures
            final(self)@ == i as u64,
    {
        self.0 = i as u64;
    }

    pub fn write_usize(&mut self, i: usize)
        ensures
            final(self)@ == i as u64,
    {
        self.0 = i as u64;
    }

    /// Writes the bits of `i`, as `write_u8` would.
    pub fn write_i8(&mut self, i: i8)
        ensures
            final(self)@ == (i as u8) as u64,
    {
        self.write_u8(i as u8);
    }

    /// Writes the bits of `i`, as `write_u16` would.
    pub fn write_i16(&mut self, i: i16)
        ensures
            final(self)@ == (i as u16) as u64,
    {
        self.write_u16(i as u16);
    }

    /// Writes the bits of `i`, as `write_u32` would.
    pub fn write_i32(&mut self, i: i32)
        ensures
            final(self)@ == (i as u32) as u64,
    {
        self.write_u32(i as u32);
    }

    /// Writes the bits of `i`, as `write_u64` would.
    pub fn write_i64(&mut self, i: i64)
        ensures
            final(self)@ == i as u64,
    {
        self.write_u64(i as u64);
    }

    /// Writes the bits of `i`, as `write_usize` would.
    pub fn write_isize(&mut self, i: isize)
        ensures
            final(self)@ == (i as usize) as u64,
    {
        self.write_usize(i as usize);
    }
}

/// The digest of an integer key under `Hasher`: the key itself.
pub fn hash(val: u64) -> (r: u64)
    ensures
        r == val,
{
    let mut h = Hasher::new();
    h.write_u64(val);
    h.finish()
}

} // verus!
