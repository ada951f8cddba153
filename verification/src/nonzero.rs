//! Integers that are never zero.

use vstd::prelude::*;

verus! {

/// A `u16` that is not zero.
#[derive(Clone, Copy, Debug, PartialEq, Eq, Structural)]
pub struct NonZeroU16 {
    value: u16,
}

impl View for NonZeroU16 {
    type V = u16;

    closed spec fn view(&self) -> u16 {
        self.value
    }
}

impl NonZeroU16 {
    #[verifier::type_invariant]
    spec fn is_not_zero(self) -> bool {
        self.value != 0
    }

    /// The integer, unless it is zero.
    pub fn new(value: u16) -> (result: Option<NonZeroU16>)
        ensures
            result is Some <==> value != 0,
            result matches Some(nonzero) ==> nonzero@ == value,
    {
        if value == 0 {
            None
        } else {
            Some(NonZeroU16 { value })
        }
    }

    /// The integer itself.
    pub fn get(self) -> (value: u16)
        ensures
            value == self@,
            value != 0,
    {
        proof {
            use_type_invariant(&self);
        }
        self.value
    }
}

/// A `u32` that is not zero.
#[derive(Clone, Copy, Debug, PartialEq, Eq, Structural)]
pub struct NonZeroU32 {
    value: u32,
}

impl View for NonZeroU32 {
    type V = u32;

    closed spec fn view(&self) -> u32 {
        self.value
    }
}

impl NonZeroU32 {
    #[verifier::type_invariant]
    spec fn is_not_zero(self) -> bool {
        self.value != 0
    }

    /// The integer, unless it is zero.
    pub fn new(value: u32) -> (result: Option<NonZeroU32>)
        ensures
            result is Some <==> value != 0,
            result matches Some(nonzero) ==> nonzero@ == value,
    {
        if value == 0 {
            None
        } else {
            Some(NonZeroU32 { value })
        }
    }

    /// The integer itself.
    pub fn get(self) -> (value: u32)
        ensures
            value == self@,
            value != 0,
    {
        proof {
            use_type_invariant(&self);
        }
        self.value
    }
}

/// A `usize` that is not zero.
#[derive(Clone, Copy, Debug, PartialEq, Eq, Structural)]
pub struct NonZeroUsize {
    value: usize,
}

impl View for NonZeroUsize {
    type V = usize;

    closed spec fn view(&self) -> usize {
        self.value
    }
}

impl NonZeroUsize {
    #[verifier::type_invariant]
    spec fn is_not_zero(self) -> bool {
        self.value != 0
    }

    /// The integer, unless it is zero.
    pub fn new(value: usize) -> (result: Option<NonZeroUsize>)
        ensures
            result is Some <==> value != 0,
            result matches Some(nonzero) ==> nonzero@ == value,
    {
        if value == 0 {
            None
        } else {
            Some(NonZeroUsize { value })
        }
    }

    /// The integer itself.
    pub fn get(self) -> (value: usize)
        ensures
            value == self@,
            value != 0,
    {
        proof {
            use_type_invariant(&self);
        }
        self.value
    }
}

} // verus!
