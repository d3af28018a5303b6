//! Double-precision numbers, kept as their IEEE 754 bit patterns and compared
//! as the numbers that the patterns stand for.
use vstd::prelude::*;

verus! {

/// The sign bit of a double.
pub const SIGN_BIT: u64 = 0x8000_0000_0000_0000;

/// The bit pattern of positive infinity: of the patterns without a sign, those
/// above it are no numbers.
pub const INFINITY_BITS: u64 = 0x7ff0_0000_0000_0000;

/// A double-precision number by its bit pattern.
#[derive(Clone, Copy, Debug, PartialEq, Eq, Structural)]
pub struct FloatBits {
    pub bits: u64,
}

/// A double-precision number together with the text it is written as.
#[derive(Clone, Debug)]
pub struct FloatScalar {
    pub value: FloatBits,
    pub text: String,
}

impl FloatBits {
    /// The pattern without its sign bit. It grows with the number's magnitude.
    pub open spec fn magnitude(self) -> int {
        if self.bits < SIGN_BIT {
            self.bits as int
        } else {
            self.bits - SIGN_BIT
        }
    }

    /// Whether the pattern stands for no number.
    pub open spec fn nan(self) -> bool {
        self.magnitude() > INFINITY_BITS
    }

    /// A place on the number line: numbers compare as their ranks do. Both
    /// zeros have the rank 0.
    pub open spec fn rank(self) -> int {
        if self.bits < SIGN_BIT {
            self.magnitude()
        } else {
            -self.magnitude()
        }
    }

    /// Whether the two are equal numbers.
    pub open spec fn same_number(self, other: FloatBits) -> bool {
        !self.nan() && !other.nan() && self.rank() == other.rank()
    }

    /// Whether this number is below the other.
    pub open spec fn below(self, other: FloatBits) -> bool {
        !self.nan() && !other.nan() && self.rank() < other.rank()
    }

    /// Whether this number is at most the other.
    pub open spec fn at_most(self, other: FloatBits) -> bool {
        !self.nan() && !other.nan() && self.rank() <= other.rank()
    }

    /// Whether the pattern stands for no number.
    pub fn is_nan(self) -> (r: bool)
        ensures
            r == self.nan(),
    {
        if self.bits < SIGN_BIT {
            self.bits > INFINITY_BITS
        } else {
            self.bits - SIGN_BIT > INFINITY_BITS
        }
    }

    /// Whether the two are equal numbers.
    pub fn number_eq(self, other: FloatBits) -> (r: bool)
        ensures
            r == self.same_number(other),
    {
        self.number_le(other) && other.number_le(self)
    }

    /// Whether this number is below the other.
    pub fn number_lt(self, other: FloatBits) -> (r: bool)
        ensures
            r == self.below(other),
    {
        self.number_le(other) && !other.number_le(self)
    }

    /// Whether this number is at most the other.
    pub fn number_le(self, other: FloatBits) -> (r: bool)
        ensures
            r == self.at_most(other),
    {
        if self.is_nan() || other.is_nan() {
            return false;
        }
        if self.bits < SIGN_BIT {
            if other.bits < SIGN_BIT {
                self.bits <= other.bits
            } else {
                self.bits == 0 && other.bits == SIGN_BIT
            }
        } else if other.bits < SIGN_BIT {
            true
        } else {
            self.bits >= other.bits
        }
    }

    /// The lower of two numbers; the other one where one is no number.
    pub open spec fn lower(self, other: FloatBits) -> FloatBits {
        if self.nan() {
            other
        } else if other.nan() || self.at_most(other) {
            self
        } else {
            other
        }
    }

    /// The higher of two numbers; the other one where one is no number.
    pub open spec fn higher(self, other: FloatBits) -> FloatBits {
        if self.nan() {
            other
        } else if other.nan() || other.at_most(self) {
            self
        } else {
            other
        }
    }

    /// The lower of two numbers; the other one where one is no number.
    pub fn min_number(self, other: FloatBits) -> (r: FloatBits)
        ensures
            r == self.lower(other),
    {
        if self.is_nan() {
            other
        } else if other.is_nan() || self.number_le(other) {
            self
        } else {
            other
        }
    }

    /// The higher of two numbers; the other one where one is no number.
    pub fn max_number(self, other: FloatBits) -> (r: FloatBits)
        ensures
            r == self.higher(other),
    {
        if self.is_nan() {
            other
        } else if other.is_nan() || other.number_le(self) {
            self
        } else {
            other
        }
    }
}

/// Doubles compare as their bit patterns do where neither has a sign, in the
/// other direction where both have one, and one with a sign is below one
/// without, but for the zeros, which are equal.
pub proof fn doubles_compare_as_their_patterns_do(a: FloatBits, b: FloatBits)
    requires
        !a.nan(),
        !b.nan(),
    ensures
        a.bits < SIGN_BIT && b.bits < SIGN_BIT ==> (a.below(b) <==> a.bits < b.bits),
        a.bits >= SIGN_BIT && b.bits >= SIGN_BIT ==> (a.below(b) <==> a.bits > b.bits),
        a.bits >= SIGN_BIT && b.bits < SIGN_BIT ==> !b.below(a) && (a.below(b) <==> !(a.bits == SIGN_BIT && b.bits
            == 0)),
        a.same_number(b) <==> !a.below(b) && !b.below(a),
        a.at_most(b) <==> a.below(b) || a.same_number(b),
        a.rank() < b.rank() <==> a.below(b),
{
}

/// What is no number compares with nothing.
pub proof fn nan_compares_with_nothing(a: FloatBits, b: FloatBits)
    requires
        a.nan() || b.nan(),
    ensures
        !a.below(b),
        !a.at_most(b),
        !a.same_number(b),
{
}

} // verus!
