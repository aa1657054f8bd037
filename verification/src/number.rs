//! Numeric readings, held as IEEE-754 binary32 bit patterns.
//!
//! A reading is never computed with here, only compared and selected, so its
//! 32 bits are all that is kept. Two orders are defined on them: the partial
//! order of the numbers they encode, and the total order of the encodings.

use crate::order::Ranked;
use vstd::prelude::*;

verus! {

/// One numeric reading: the bit pattern of an IEEE-754 binary32 value.
#[derive(Clone, Copy, Debug, PartialEq, Eq, Structural)]
pub struct Number {
    pub bits: u32,
}

impl Number {
    /// The sign bit is set.
    pub open spec fn sign_negative(self) -> bool {
        self.bits >= 0x8000_0000
    }

    /// Exponent and fraction, read as one integer.
    pub open spec fn magnitude(self) -> int {
        if self.bits >= 0x8000_0000 {
            self.bits - 0x8000_0000
        } else {
            self.bits as int
        }
    }

    /// The pattern encodes no number.
    pub open spec fn is_nan(self) -> bool {
        self.magnitude() > 0x7f80_0000
    }

    /// Position of a number on the number line: both zeros share position 0.
    pub open spec fn rank(self) -> int {
        if self.sign_negative() {
            -self.magnitude()
        } else {
            self.magnitude()
        }
    }

    /// Numeric `<`: false as soon as either side is not a number.
    pub open spec fn less_than(self, other: Number) -> bool {
        !self.is_nan() && !other.is_nan() && self.rank() < other.rank()
    }

    /// Position of a bit pattern in the total order of encodings: negative
    /// patterns by falling magnitude, then positive ones by rising magnitude.
    pub open spec fn total_rank(self) -> int {
        if self.sign_negative() {
            -self.magnitude() - 1
        } else {
            self.magnitude()
        }
    }

    /// `self` comes no later than `other` in the total order of encodings.
    pub open spec fn precedes(self, other: Number) -> bool {
        self.total_rank() <= other.total_rank()
    }

    pub fn new(bits: u32) -> (n: Number)
        ensures
            n.bits == bits,
    {
        Number { bits }
    }

    /// The quiet not-a-number pattern used where a statistic has no value.
    pub fn nan() -> (n: Number)
        ensures
            n.bits == 0x7fc0_0000,
            n.is_nan(),
    {
        Number { bits: 0x7fc0_0000 }
    }

    pub fn bits(&self) -> (b: u32)
        ensures
            b == self.bits,
    {
        self.bits
    }

    fn magnitude_of(&self) -> (m: u32)
        ensures
            m == self.magnitude(),
    {
        if self.bits >= 0x8000_0000 {
            self.bits - 0x8000_0000
        } else {
            self.bits
        }
    }

    pub fn is_not_a_number(&self) -> (b: bool)
        ensures
            b == self.is_nan(),
    {
        self.magnitude_of() > 0x7f80_0000
    }

    /// Numeric `<` on two readings.
    pub fn lt(&self, other: &Number) -> (b: bool)
        ensures
            b == self.less_than(*other),
    {
        if self.is_not_a_number() || other.is_not_a_number() {
            return false;
        }
        let a: u32 = self.magnitude_of();
        let b: u32 = other.magnitude_of();
        if self.bits >= 0x8000_0000 {
            if other.bits >= 0x8000_0000 {
                b < a
            } else {
                a > 0 || b > 0
            }
        } else {
            other.bits < 0x8000_0000 && a < b
        }
    }

    /// Comparison in the total order of encodings.
    pub fn le_total(&self, other: &Number) -> (b: bool)
        ensures
            b == self.precedes(*other),
    {
        let a: u32 = self.magnitude_of();
        let b: u32 = other.magnitude_of();
        if self.bits >= 0x8000_0000 {
            other.bits < 0x8000_0000 || b <= a
        } else {
            other.bits < 0x8000_0000 && a <= b
        }
    }
}

/// Readings are sorted by the total order of their encodings.
impl Ranked for Number {
    open spec fn comes_before(self, other: Number) -> bool {
        self.precedes(other)
    }

    proof fn lemma_connected(a: Number, b: Number) {
    }

    proof fn lemma_transitive(a: Number, b: Number, c: Number) {
    }

    fn no_later_than(&self, other: &Number) -> (b: bool) {
        self.le_total(other)
    }
}

/// The total order of encodings tells any two distinct patterns apart.
pub proof fn lemma_total_rank_injective(a: Number, b: Number)
    requires
        a.total_rank() == b.total_rank(),
    ensures
        a == b,
{
}

/// On numbers, the total order of encodings refines the numeric order.
pub proof fn lemma_less_than_implies_precedes(a: Number, b: Number)
    requires
        a.less_than(b),
    ensures
        a.precedes(b),
        !b.precedes(a),
{
}

} // verus!
