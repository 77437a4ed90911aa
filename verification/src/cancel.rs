//! The cancellation token: a one-shot flag.

use vstd::prelude::*;

verus! {

/// A flag that starts clear and, once set, stays set.
#[derive(Debug, Clone, Copy, PartialEq, Eq, Structural)]
pub struct CancelToken {
    canceled: bool,
}

impl CancelToken {
    /// Whether the flag is set.
    pub closed spec fn canceled(&self) -> bool {
        self.canceled
    }

    /// A token whose flag is clear.
    pub fn new() -> (token: CancelToken)
        ensures
            !token.canceled(),
    {
        CancelToken { canceled: false }
    }

    /// Sets the flag. Setting it again changes nothing.
    pub fn cancel(&mut self)
        ensures
            final(self).canceled(),
            old(self).canceled() ==> *final(self) == *old(self),
    {
        self.canceled = true;
    }

    /// Whether the flag is set.
    pub fn is_canceled(&self) -> (res: bool)
        ensures
            res == self.canceled(),
    {
        self.canceled
    }
}

} // verus!
