//! Conversions between integer types that keep the value.

use vstd::prelude::*;

verus! {

pub trait NumAs<T>: Sized {
    spec fn fits(self) -> bool;

    spec fn same_value(self, t: T) -> bool;

    /// The same value in `T`, which must hold it.
    fn num_as(self) -> (r: T)
        requires
            self.fits(),
        ensures
            self.same_value(r),
    ;

    /// The same value in `T`, or `None` when `T` cannot hold it.
    fn try_num_as(self) -> (r: Option<T>)
        ensures
            match r {
                Some(t) => self.fits() && self.same_value(t),
                None => !self.fits(),
            },
    ;
}

impl NumAs<u32> for usize {
    open spec fn fits(self) -> bool {
        self <= u32::MAX
    }

    open spec fn same_value(self, t: u32) -> bool {
        self as nat == t as nat
    }

    fn num_as(self) -> (r: u32) {
        self as u32
    }

    fn try_num_as(self) -> (r: Option<u32>) {
        if self as u64 <= u32::MAX as u64 {
            Some(self as u32)
        } else {
            None
        }
    }
}

impl NumAs<u32> for u64 {
    open spec fn fits(self) -> bool {
        self <= u32::MAX
    }

    open spec fn same_value(self, t: u32) -> bool {
        self as nat == t as nat
    }

    fn num_as(self) -> (r: u32) {
        self as u32
    }

    fn try_num_as(self) -> (r: Option<u32>) {
        if self <= u32::MAX as u64 {
            Some(self as u32)
        } else {
            None
        }
    }
}

impl NumAs<usize> for u64 {
    open spec fn fits(self) -> bool {
        self <= usize::MAX
    }

    open spec fn same_value(self, t: usize) -> bool {
        self as nat == t as nat
    }

    fn num_as(self) -> (r: usize) {
        self as usize
    }

    fn try_num_as(self) -> (r: Option<usize>) {
        if self <= usize::MAX as u64 {
            Some(self as usize)
        } else {
            None
        }
    }
}

impl NumAs<u8> for u32 {
    open spec fn fits(self) -> bool {
        self <= u8::MAX
    }

    open spec fn same_value(self, t: u8) -> bool {
        self as nat == t as nat
    }

    fn num_as(self) -> (r: u8) {
        self as u8
    }

    fn try_num_as(self) -> (r: Option<u8>) {
        if self <= u8::MAX as u32 {
            Some(self as u8)
        } else {
            None
        }
    }
}

} // verus!
