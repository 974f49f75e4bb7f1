//! The two-bit scanning mode of a number literal: whether the scan is
//! currently collecting fractional digits and whether it has reached the
//! exponent.

use vstd::prelude::*;

verus! {

/// The lexer's state while scanning one number literal. Entering the
/// exponent clears the decimal flag: once in the exponent, digits are
/// never again collected into the fractional part.
#[derive(Debug, Clone, Copy)]
pub struct NumberState {
    pub exponent: bool,
    pub decimal: bool,
}

impl NumberState {
    /// The starting mode: collecting integer digits.
    pub fn new() -> (r: Self)
        ensures
            r == (NumberState { exponent: false, decimal: false }),
    {
        Self { exponent: false, decimal: false }
    }

    /// Enters or leaves exponent mode; entering it clears decimal mode.
    pub fn set_exp(&mut self, val: bool)
        ensures
            final(self).exponent == val,
            final(self).decimal == if val {
                false
            } else {
                old(self).decimal
            },
    {
        self.exponent = val;
        if val {
            self.decimal = false;
        }
    }

    /// Enters or leaves decimal mode; the exponent flag is untouched.
    pub fn set_dec(&mut self, val: bool)
        ensures
            final(self).decimal == val,
            final(self).exponent == old(self).exponent,
    {
        self.decimal = val;
    }
}

} // verus!
