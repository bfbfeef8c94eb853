//! Unsigned integer types usable as indices, with exact conversions.

use vstd::prelude::*;

verus! {

/// An unsigned integer type whose values convert to and from `usize`
/// exactly, where they fit.
pub trait TrustedIndex: Sized + Copy {
    spec fn as_nat(self) -> nat;

    /// The largest value of the type.
    fn max_value() -> (r: Self)
        ensures
            forall|v: Self| #[trigger] v.as_nat() <= r.as_nat(),
    ;

    fn to_usize(self) -> (r: Option<usize>)
        ensures
            match r {
                Some(n) => n == self.as_nat(),
                None => self.as_nat() > usize::MAX,
            },
    ;

    fn from_usize(n: usize) -> (r: Option<Self>)
        ensures
            match r {
                Some(v) => v.as_nat() == n,
                None => forall|v: Self| #[trigger] v.as_nat() != n,
            },
    ;
}

impl TrustedIndex for u8 {
    open spec fn as_nat(self) -> nat {
        self as nat
    }

    fn max_value() -> (r: Self) {
        u8::MAX
    }

    fn to_usize(self) -> (r: Option<usize>) {
        Some(self as usize)
    }

    fn from_usize(n: usize) -> (r: Option<Self>) {
        if n <= u8::MAX as usize {
            Some(n as u8)
        } else {
            None
        }
    }
}

impl TrustedIndex for u16 {
    open spec fn as_nat(self) -> nat {
        self as nat
    }

    fn max_value() -> (r: Self) {
        u16::MAX
    }

    fn to_usize(self) -> (r: Option<usize>) {
        Some(self as usize)
    }

    fn from_usize(n: usize) -> (r: Option<Self>) {
        if n <= u16::MAX as usize {
            Some(n as u16)
        } else {
            None
        }
    }
}

impl TrustedIndex for u32 {
    open spec fn as_nat(self) -> nat {
        self as nat
    }

    fn max_value() -> (r: Self) {
        u32::MAX
    }

    fn to_usize(self) -> (r: Option<usize>) {
        if self as u64 <= usize::MAX as u64 {
            Some(self as usize)
        } else {
            None
        }
    }

    fn from_usize(n: usize) -> (r: Option<Self>) {
        if n as u64 <= u32::MAX as u64 {
            Some(n as u32)
        } else {
            None
        }
    }
}

impl TrustedIndex for u64 {
    open spec fn as_nat(self) -> nat {
        self as nat
    }

    fn max_value() -> (r: Self) {
        u64::MAX
    }

    fn to_usize(self) -> (r: Option<usize>) {
        if self <= usize::MAX as u64 {
            Some(self as usize)
        } else {
            None
        }
    }

    fn from_usize(n: usize) -> (r: Option<Self>) {
        Some(n as u64)
    }
}

impl TrustedIndex for usize {
    open spec fn as_nat(self) -> nat {
        self as nat
    }

    fn max_value() -> (r: Self) {
        usize::MAX
    }

    fn to_usize(self) -> (r: Option<usize>) {
        Some(self)
    }

    fn from_usize(n: usize) -> (r: Option<Self>) {
        Some(n)
    }
}

/// The sentinel that marks the end of a chain of free slots: the largest
/// index, which no slot can have.
pub fn no_free<I: TrustedIndex>() -> (r: I)
    ensures
        forall|v: I| #[trigger] v.as_nat() <= r.as_nat(),
{
    I::max_value()
}

} // verus!
