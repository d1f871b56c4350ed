//! IEEE-754 binary64 values held by their bit pattern.
//!
//! The engine compares confidences and quality scores against fixed bounds
//! and prints them in messages. A value is held as its 64-bit pattern,
//! from which every comparison below is computed exactly, together with the
//! decimal text that the value prints as.

use vstd::prelude::*;

verus! {

/// Bit pattern of the sign bit.
pub const SIGN_BIT: u64 = 0x8000_0000_0000_0000;

/// Bit pattern of positive infinity; a magnitude above it is a NaN.
pub const POS_INFINITY: u64 = 0x7FF0_0000_0000_0000;

/// Bit pattern of 1.0.
pub const ONE: u64 = 0x3FF0_0000_0000_0000;

/// Bit pattern of 0.5.
pub const HALF: u64 = 0x3FE0_0000_0000_0000;

/// A binary64 number, by bit pattern, with the decimal text it prints as.
#[derive(Debug, Clone)]
pub struct Real64 {
    /// The IEEE-754 bit pattern.
    pub bits: u64,
    /// The number as it is printed (shortest round-trip decimal form). It
    /// is given by whoever makes the number; nothing here checks it against
    /// the bits, since printing a binary64 number is floating-point work.
    pub text: String,
}

/// The magnitude part of a bit pattern (all bits but the sign).
pub open spec fn magnitude(bits: u64) -> int {
    if bits >= SIGN_BIT { bits - SIGN_BIT } else { bits as int }
}

/// Whether the sign bit is set.
pub open spec fn sign_set(bits: u64) -> bool {
    bits >= SIGN_BIT
}

/// Whether the pattern encodes a NaN.
pub open spec fn is_nan(bits: u64) -> bool {
    magnitude(bits) > POS_INFINITY
}

/// Whether the value is strictly below 0.0 (`-0.0` is not).
pub open spec fn below_zero(bits: u64) -> bool {
    !is_nan(bits) && sign_set(bits) && magnitude(bits) > 0
}

/// Whether the value is strictly above 1.0.
pub open spec fn above_one(bits: u64) -> bool {
    !is_nan(bits) && !sign_set(bits) && magnitude(bits) > ONE
}

/// Whether the value is at least 0.5.
pub open spec fn at_least_half(bits: u64) -> bool {
    !is_nan(bits) && !sign_set(bits) && magnitude(bits) >= HALF
}

impl Real64 {
    /// Views a number as its bit pattern and printed text.
    pub open spec fn view(&self) -> (u64, Seq<char>) {
        (self.bits, self.text@)
    }

    /// Makes a number from its bit pattern and printed text.
    pub fn new(bits: u64, text: String) -> (r: Self)
        ensures
            r.bits == bits,
            r.text@ == text@,
    {
        Real64 { bits, text }
    }

    /// Copies the number.
    pub fn duplicate(&self) -> (r: Self)
        ensures
            r.bits == self.bits,
            r.text@ == self.text@,
    {
        Real64 { bits: self.bits, text: self.text.clone() }
    }

    fn magnitude_of(&self) -> (m: u64)
        ensures
            m == magnitude(self.bits),
    {
        if self.bits >= SIGN_BIT {
            self.bits - SIGN_BIT
        } else {
            self.bits
        }
    }

    /// Whether the number is a NaN.
    pub fn is_nan(&self) -> (b: bool)
        ensures
            b == is_nan(self.bits),
    {
        self.magnitude_of() > POS_INFINITY
    }

    /// `self < 0.0` in IEEE-754 comparison.
    pub fn is_below_zero(&self) -> (b: bool)
        ensures
            b == below_zero(self.bits),
    {
        let m = self.magnitude_of();
        m <= POS_INFINITY && self.bits >= SIGN_BIT && m > 0
    }

    /// `self > 1.0` in IEEE-754 comparison.
    pub fn is_above_one(&self) -> (b: bool)
        ensures
            b == above_one(self.bits),
    {
        let m = self.magnitude_of();
        m <= POS_INFINITY && self.bits < SIGN_BIT && m > ONE
    }

    /// `self >= 0.5` in IEEE-754 comparison.
    pub fn is_at_least_half(&self) -> (b: bool)
        ensures
            b == at_least_half(self.bits),
    {
        let m = self.magnitude_of();
        m <= POS_INFINITY && self.bits < SIGN_BIT && m >= HALF
    }
}

} // verus!
