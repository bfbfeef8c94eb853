//! Bit-length and power-of-two arithmetic on unsigned integers.

use vstd::prelude::*;
use vstd::arithmetic::power2::{
    pow2,
    lemma_pow2_pos,
    lemma_pow2_unfold,
    lemma_pow2_strictly_increases,
    lemma2_to64,
    lemma2_to64_rest,
};
use vstd::bits::{
    lemma_u32_shl_is_mul,
    lemma_u32_shr_is_div,
    lemma_u64_shl_is_mul,
    lemma_u64_shr_is_div,
};

verus! {

/// Number of significant bits of `n`.
pub open spec fn sig_bits(n: nat) -> nat
    decreases n,
{
    if n == 0 {
        0
    } else {
        1 + sig_bits(n / 2)
    }
}

/// `n` has `k` significant bits exactly when `2^(k-1) <= n < 2^k`.
pub proof fn lemma_sig_bits(n: nat)
    ensures
        n < pow2(sig_bits(n)),
        sig_bits(n) > 0 ==> pow2((sig_bits(n) - 1) as nat) <= n,
    decreases n,
{
    lemma2_to64();
    if n > 0 {
        let m = n / 2;
        lemma_sig_bits(m);
        lemma_pow2_unfold(sig_bits(n));
        if sig_bits(m) > 0 {
            lemma_pow2_unfold(sig_bits(m));
        }
    }
}

proof fn lemma_pow2_le(a: nat, b: nat)
    requires
        a <= b,
    ensures
        pow2(a) <= pow2(b),
{
    if a < b {
        lemma_pow2_strictly_increases(a, b);
    }
}

/// Bit-length helpers, for the unsigned types that have them.
pub trait BitsExt: Sized {
    spec fn val(self) -> nat;

    /// Number of significant bits.
    fn bit_len(self) -> (r: u32)
        ensures
            r == sig_bits(self.val()),
    ;

    /// The least `k` with `self <= 2^k`; `None` for zero.
    fn log2ceil(self) -> (r: Option<u32>)
        ensures
            self.val() == 0 ==> r is None,
            self.val() > 0 ==> r is Some && r->Some_0 == sig_bits((self.val() - 1) as nat),
    ;

    /// `self / y`, rounded up.
    fn ceil_div(self, y: Self) -> (r: Self)
        requires
            y.val() > 0,
            self.val() + y.val() - 1 <= Self::max_val(),
        ensures
            r.val() == (self.val() + y.val() - 1) as nat / y.val(),
    ;

    /// `self / 2^y`, rounded up.
    fn ceil_shr(self, y: u32) -> (r: Self)
        requires
            y < Self::width(),
            self.val() + pow2(y as nat) - 1 <= Self::max_val(),
        ensures
            r.val() == (self.val() + pow2(y as nat) - 1) as nat / pow2(y as nat),
    ;

    /// `k` when `self` is `2^k`, else `None`.
    fn log2(self) -> (r: Option<u32>)
        ensures
            match r {
                Some(k) => self.val() == pow2(k as nat),
                None => forall|k: nat| self.val() != #[trigger] pow2(k),
            },
    ;

    /// `self` rounded up to a multiple of `align`, a power of two.
    fn pad_to_align(self, align: Self) -> (r: Self)
        requires
            exists|k: nat| align.val() == #[trigger] pow2(k),
            self.val() + align.val() - 1 <= Self::max_val(),
        ensures
            r.val() % align.val() == 0,
            self.val() <= r.val() < self.val() + align.val(),
    ;

    spec fn width() -> nat;

    spec fn max_val() -> nat;
}

impl BitsExt for u32 {
    open spec fn val(self) -> nat {
        self as nat
    }

    open spec fn width() -> nat {
        32
    }

    open spec fn max_val() -> nat {
        u32::MAX as nat
    }

    fn bit_len(self) -> (r: u32) {
        proof {
            lemma_sig_bits(self as nat);
            lemma2_to64();
            if sig_bits(self as nat) > 32 {
                lemma_pow2_le(32, (sig_bits(self as nat) - 1) as nat);
            }
        }
        let mut t = self;
        let mut bits: u32 = 0;
        while t > 0
            invariant
                sig_bits(self as nat) == bits + sig_bits(t as nat),
                sig_bits(self as nat) <= 32,
            decreases t,
        {
            t = t / 2;
            bits = bits + 1;
        }
        bits
    }

    fn log2ceil(self) -> (r: Option<u32>) {
        if self == 0 {
            None
        } else {
            Some((self - 1).bit_len())
        }
    }

    fn ceil_div(self, y: Self) -> (r: Self) {
        (self + (y - 1)) / y
    }

    fn ceil_shr(self, y: u32) -> (r: Self) {
        proof {
            lemma2_to64();
            lemma_pow2_le(y as nat, 31);
            lemma_u32_shl_is_mul(1, y);
        }
        let sum = self + ((1u32 << y) - 1);
        proof {
            lemma_u32_shr_is_div(sum, y);
        }
        sum >> y
    }

    fn log2(self) -> (r: Option<u32>) {
        let l2 = match self.log2ceil() {
            None => {
                proof {
                    assert forall|k: nat| self.val() != #[trigger] pow2(k) by {
                        lemma_pow2_pos(k);
                    }
                }
                return None;
            },
            Some(l2) => l2,
        };
        proof {
            lemma2_to64();
            lemma_sig_bits((self - 1) as nat);
        }
        if l2 < 32 {
            proof {
                lemma_pow2_le(l2 as nat, 31);
                lemma_u32_shl_is_mul(1, l2);
            }
            if (1u32 << l2) == self {
                return Some(l2);
            }
        }
        proof {
            assert forall|k: nat| self.val() != #[trigger] pow2(k) by {
                if self.val() == pow2(k) {
                    if k < l2 {
                        lemma_pow2_le(k, (l2 - 1) as nat);
                    } else if k > l2 {
                        lemma_pow2_strictly_increases(l2 as nat, k);
                    } else if l2 >= 32 {
                        lemma_pow2_le(32, l2 as nat);
                    }
                }
            }
        }
        None
    }

    fn pad_to_align(self, align: Self) -> (r: Self) {
        let k = match align.log2() {
            Some(k) => k,
            None => {
                proof {
                    let j = choose|j: nat| align.val() == #[trigger] pow2(j);
                    assert(align.val() != pow2(j));
                }
                0
            },
        };
        proof {
            lemma2_to64();
            if k >= 32 {
                lemma_pow2_le(32, k as nat);
            }
        }
        let q = self.ceil_shr(k);
        proof {
            lemma_pow2_pos(k as nat);
            let a = pow2(k as nat) as int;
            let x = self as int;
            assert(q as int * a <= x + a - 1) by (nonlinear_arith)
                requires
                    q as int == (x + a - 1) / a,
                    a > 0,
            ;
            lemma_u32_shl_is_mul(q, k);
            assert(q as int * a >= x && q as int * a < x + a && (q as int * a) % a == 0)
                by (nonlinear_arith)
                requires
                    q as int == (x + a - 1) / a,
                    a > 0,
                    x >= 0,
            ;
        }
        q << k
    }
}

impl BitsExt for u64 {
    open spec fn val(self) -> nat {
        self as nat
    }

    open spec fn width() -> nat {
        64
    }

    open spec fn max_val() -> nat {
        u64::MAX as nat
    }

    fn bit_len(self) -> (r: u32) {
        proof {
            lemma_sig_bits(self as nat);
            lemma2_to64();
            lemma2_to64_rest();
            if sig_bits(self as nat) > 64 {
                lemma_pow2_le(64, (sig_bits(self as nat) - 1) as nat);
            }
        }
        let mut t = self;
        let mut bits: u32 = 0;
        while t > 0
            invariant
                sig_bits(self as nat) == bits + sig_bits(t as nat),
                sig_bits(self as nat) <= 64,
            decreases t,
        {
            t = t / 2;
            bits = bits + 1;
        }
        bits
    }

    fn log2ceil(self) -> (r: Option<u32>) {
        if self == 0 {
            None
        } else {
            Some((self - 1).bit_len())
        }
    }

    fn ceil_div(self, y: Self) -> (r: Self) {
        (self + (y - 1)) / y
    }

    fn ceil_shr(self, y: u32) -> (r: Self) {
        proof {
            lemma2_to64();
            lemma2_to64_rest();
            lemma_pow2_le(y as nat, 63);
            lemma_u64_shl_is_mul(1, y as u64);
        }
        let sum = self + ((1u64 << (y as u64)) - 1);
        proof {
            lemma_u64_shr_is_div(sum, y as u64);
        }
        sum >> (y as u64)
    }

    fn log2(self) -> (r: Option<u32>) {
        let l2 = match self.log2ceil() {
            None => {
                proof {
                    assert forall|k: nat| self.val() != #[trigger] pow2(k) by {
                        lemma_pow2_pos(k);
                    }
                }
                return None;
            },
            Some(l2) => l2,
        };
        proof {
            lemma2_to64();
            lemma2_to64_rest();
            lemma_sig_bits((self - 1) as nat);
        }
        if l2 < 64 {
            proof {
                lemma_pow2_le(l2 as nat, 63);
                lemma_u64_shl_is_mul(1, l2 as u64);
            }
            if (1u64 << (l2 as u64)) == self {
                return Some(l2);
            }
        }
        proof {
            assert forall|k: nat| self.val() != #[trigger] pow2(k) by {
                if self.val() == pow2(k) {
                    if k < l2 {
                        lemma_pow2_le(k, (l2 - 1) as nat);
                    } else if k > l2 {
                        lemma_pow2_strictly_increases(l2 as nat, k);
                    } else if l2 >= 64 {
                        lemma_pow2_le(64, l2 as nat);
                    }
                }
            }
        }
        None
    }

    fn pad_to_align(self, align: Self) -> (r: Self) {
        let k = match align.log2() {
            Some(k) => k,
            None => {
                proof {
                    let j = choose|j: nat| align.val() == #[trigger] pow2(j);
                    assert(align.val() != pow2(j));
                }
                0
            },
        };
        proof {
            lemma2_to64();
            lemma2_to64_rest();
            if k >= 64 {
                lemma_pow2_le(64, k as nat);
            }
        }
        let q = self.ceil_shr(k);
        proof {
            lemma_pow2_pos(k as nat);
            let a = pow2(k as nat) as int;
            let x = self as int;
            assert(q as int * a <= x + a - 1) by (nonlinear_arith)
                requires
                    q as int == (x + a - 1) / a,
                    a > 0,
            ;
            lemma_u64_shl_is_mul(q, k as u64);
            assert(q as int * a >= x && q as int * a < x + a && (q as int * a) % a == 0)
                by (nonlinear_arith)
                requires
                    q as int == (x + a - 1) / a,
                    a > 0,
                    x >= 0,
            ;
        }
        q << (k as u64)
    }
}

} // verus!
