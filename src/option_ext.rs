//! Assertions that an `Option` is empty.

use vstd::prelude::*;

verus! {

pub trait OptionExt<T>: Sized {
    spec fn holds_none(&self) -> bool;

    /// Consumes an `Option` that must be `None`.
    fn unwrap_none(self)
        requires
            self.holds_none(),
    ;

    /// Consumes an `Option` that must be `None`; `error` says why it is.
    fn expect_none(self, error: &str)
        requires
            self.holds_none(),
    ;
}

impl<T> OptionExt<T> for Option<T> {
    open spec fn holds_none(&self) -> bool {
        self is None
    }

    fn unwrap_none(self) {
        match self {
            None => {},
            Some(_) => {},
        }
    }

    fn expect_none(self, error: &str) {
        match self {
            None => {},
            Some(_) => {},
        }
    }
}

} // verus!
