//! Match scores, kept as the bits of an IEEE 754 double.
use vstd::prelude::*;

verus! {

/// The sign bit of a double.
pub const SIGN: u64 = 0x8000_0000_0000_0000;

/// The bits of positive infinity: a larger magnitude is no number.
pub const INFINITY: u64 = 0x7FF0_0000_0000_0000;

/// The score of a match: the bits of an IEEE 754 double.
#[derive(Clone, Copy, Debug)]
pub struct Score {
    pub bits: u64,
}

impl Score {
    /// The bits without the sign.
    pub open spec fn magnitude(self) -> int {
        if self.bits >= SIGN {
            self.bits - SIGN
        } else {
            self.bits as int
        }
    }

    /// The score is not a number.
    pub open spec fn is_nan(self) -> bool {
        self.magnitude() > INFINITY
    }

    /// An integer that orders as the score does; both zeros have the same one.
    pub open spec fn key(self) -> int {
        if self.bits >= SIGN {
            -self.magnitude()
        } else {
            self.magnitude()
        }
    }

    /// `self > other`, as IEEE 754 has it: false where either is not a number.
    pub open spec fn above(self, other: Score) -> bool {
        !self.is_nan() && !other.is_nan() && self.key() > other.key()
    }

    fn magnitude_bits(self) -> (r: u64)
        ensures
            r == self.magnitude(),
            r < SIGN,
    {
        if self.bits >= SIGN {
            self.bits - SIGN
        } else {
            self.bits
        }
    }

    fn key_bits(self) -> (r: i64)
        ensures
            r == self.key(),
    {
        let m: i64 = self.magnitude_bits() as i64;
        if self.bits >= SIGN {
            -m
        } else {
            m
        }
    }

    /// Whether `self` is the greater of two numbers.
    pub fn is_above(self, other: Score) -> (r: bool)
        ensures
            r == self.above(other),
    {
        self.magnitude_bits() <= INFINITY && other.magnitude_bits() <= INFINITY && self.key_bits()
            > other.key_bits()
    }
}

/// Among numbers, "not above" is a total preorder: it is total and transitive.
pub proof fn law_scores_are_ordered(a: Score, b: Score, c: Score)
    requires
        !a.is_nan(),
        !b.is_nan(),
        !c.is_nan(),
    ensures
        !a.above(b) || !b.above(a),
        !a.above(b) && !b.above(c) ==> !a.above(c),
{
}

/// What is no number: bits past those of either infinity. Nothing is above it, and
/// it is above nothing.
pub proof fn law_what_is_no_number(a: Score, b: Score)
    ensures
        a.is_nan() <==> 0x7FF0_0000_0000_0000 < a.bits < 0x8000_0000_0000_0000 || a.bits
            > 0xFFF0_0000_0000_0000,
        a.is_nan() ==> !a.above(b) && !b.above(a),
{
}

/// How numbers compare, on their bits: of two without a sign the one with the
/// greater bits is above, of two with a sign the one with the lesser bits, and one
/// without a sign is above one with it, unless both are zeros.
pub proof fn law_scores_compare_by_bits(a: Score, b: Score)
    requires
        a.bits <= 0x7FF0_0000_0000_0000 || 0x8000_0000_0000_0000 <= a.bits
            <= 0xFFF0_0000_0000_0000,
        b.bits <= 0x7FF0_0000_0000_0000 || 0x8000_0000_0000_0000 <= b.bits
            <= 0xFFF0_0000_0000_0000,
    ensures
        a.bits < 0x8000_0000_0000_0000 && b.bits < 0x8000_0000_0000_0000 ==> (a.above(b)
            <==> a.bits > b.bits),
        a.bits >= 0x8000_0000_0000_0000 && b.bits >= 0x8000_0000_0000_0000 ==> (a.above(b)
            <==> a.bits < b.bits),
        a.bits < 0x8000_0000_0000_0000 && b.bits >= 0x8000_0000_0000_0000 ==> (a.above(b)
            <==> a.bits != 0 || b.bits != 0x8000_0000_0000_0000),
        a.bits >= 0x8000_0000_0000_0000 && b.bits < 0x8000_0000_0000_0000 ==> !a.above(b),
{
}

} // verus!
