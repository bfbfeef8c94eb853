//! Whether a value equals its type's default.

use vstd::prelude::*;

verus! {

pub trait IsDefault {
    spec fn spec_is_default(&self) -> bool;

    fn is_default(&self) -> (r: bool)
        ensures
            r == self.spec_is_default(),
    ;
}

impl IsDefault for bool {
    open spec fn spec_is_default(&self) -> bool {
        !*self
    }

    fn is_default(&self) -> (r: bool) {
        !*self
    }
}

impl IsDefault for u8 {
    open spec fn spec_is_default(&self) -> bool {
        *self == 0
    }

    fn is_default(&self) -> (r: bool) {
        *self == 0
    }
}

impl IsDefault for u16 {
    open spec fn spec_is_default(&self) -> bool {
        *self == 0
    }

    fn is_default(&self) -> (r: bool) {
        *self == 0
    }
}

impl IsDefault for u32 {
    open spec fn spec_is_default(&self) -> bool {
        *self == 0
    }

    fn is_default(&self) -> (r: bool) {
        *self == 0
    }
}

impl IsDefault for u64 {
    open spec fn spec_is_default(&self) -> bool {
        *self == 0
    }

    fn is_default(&self) -> (r: bool) {
        *self == 0
    }
}

impl IsDefault for usize {
    open spec fn spec_is_default(&self) -> bool {
        *self == 0
    }

    fn is_default(&self) -> (r: bool) {
        *self == 0
    }
}

impl IsDefault for i32 {
    open spec fn spec_is_default(&self) -> bool {
        *self == 0
    }

    fn is_default(&self) -> (r: bool) {
        *self == 0
    }
}

impl IsDefault for i64 {
    open spec fn spec_is_default(&self) -> bool {
        *self == 0
    }

    fn is_default(&self) -> (r: bool) {
        *self == 0
    }
}

impl<T> IsDefault for Option<T> {
    open spec fn spec_is_default(&self) -> bool {
        *self is None
    }

    fn is_default(&self) -> (r: bool) {
        self.is_none()
    }
}

impl<T> IsDefault for Vec<T> {
    open spec fn spec_is_default(&self) -> bool {
        self@.len() == 0
    }

    fn is_default(&self) -> (r: bool) {
        self.len() == 0
    }
}

impl<T: IsDefault, U> IsDefault for Result<T, U> {
    open spec fn spec_is_default(&self) -> bool {
        match self {
            Ok(v) => v.spec_is_default(),
            Err(_) => false,
        }
    }

    fn is_default(&self) -> (r: bool) {
        match self {
            Ok(v) => v.is_default(),
            Err(_) => false,
        }
    }
}

impl<A: IsDefault, B: IsDefault> IsDefault for (A, B) {
    open spec fn spec_is_default(&self) -> bool {
        self.0.spec_is_default() && self.1.spec_is_default()
    }

    fn is_default(&self) -> (r: bool) {
        self.0.is_default() && self.1.is_default()
    }
}

} // verus!
