//! Scores: single-precision numbers, held by their bits and compared by their order.

use vstd::prelude::*;

verus! {

/// A single-precision number, by its bits.
#[derive(Debug, Clone, Copy, PartialEq, Eq, Structural)]
pub struct Score {
    pub bits: u32,
}

/// Is this no number at all? The exponent is all ones, and the fraction is not zero.
pub open spec fn nan(s: Score) -> bool {
    (s.bits as int % 0x8000_0000) > 0x7f80_0000
}

/// The place of a number among all: the sign, and the magnitude below it. The two zeros have one
/// place.
pub open spec fn order(s: Score) -> int {
    if s.bits >= 0x8000_0000 {
        0x8000_0000 - s.bits
    } else {
        s.bits as int
    }
}

/// Is `a` at least `b`? What is no number is never at least, nor at most, anything.
pub open spec fn at_least(a: Score, b: Score) -> bool {
    !nan(a) && !nan(b) && order(a) >= order(b)
}

/// Is `a` above `b`?
pub open spec fn above(a: Score, b: Score) -> bool {
    !nan(a) && !nan(b) && order(a) > order(b)
}

/// The larger of two, and the other where one is no number.
pub open spec fn larger(a: Score, b: Score) -> Score {
    if nan(a) || above(b, a) {
        b
    } else {
        a
    }
}

/// The order of all bit patterns: the sign first, then the magnitude, what is no number at the
/// ends.
pub open spec fn total(s: Score) -> int {
    if s.bits >= 0x8000_0000 {
        0x7fff_ffff - s.bits
    } else {
        s.bits as int
    }
}

/// A number held between zero and one; what is no number stays what it is.
pub open spec fn clamped(s: Score) -> Score {
    if above(Score { bits: 0 }, s) {
        Score { bits: 0 }
    } else if above(s, Score { bits: 0x3f80_0000 }) {
        Score { bits: 0x3f80_0000 }
    } else {
        s
    }
}

impl Score {
    /// Zero.
    pub fn zero() -> (r: Score)
        ensures
            r.bits == 0,
    {
        Score { bits: 0 }
    }

    /// One.
    pub fn one() -> (r: Score)
        ensures
            r.bits == 0x3f80_0000,
    {
        Score { bits: 0x3f80_0000 }
    }

    /// A half.
    pub fn half() -> (r: Score)
        ensures
            r.bits == 0x3f00_0000,
    {
        Score { bits: 0x3f00_0000 }
    }

    /// The number held between zero and one.
    pub fn clamp(self) -> (r: Score)
        ensures
            r == clamped(self),
    {
        let zero = Score::zero();
        let one = Score::one();
        if zero.is_above(self) {
            zero
        } else if self.is_above(one) {
            one
        } else {
            self
        }
    }

    pub fn is_nan(&self) -> (r: bool)
        ensures
            r == nan(*self),
    {
        self.bits % 0x8000_0000 > 0x7f80_0000
    }

    fn place(&self) -> (r: i64)
        ensures
            r == order(*self),
    {
        if self.bits >= 0x8000_0000 {
            0x8000_0000i64 - self.bits as i64
        } else {
            self.bits as i64
        }
    }

    /// `>=`.
    pub fn is_at_least(&self, other: Score) -> (r: bool)
        ensures
            r == at_least(*self, other),
    {
        !self.is_nan() && !other.is_nan() && self.place() >= other.place()
    }

    /// `>`.
    pub fn is_above(&self, other: Score) -> (r: bool)
        ensures
            r == above(*self, other),
    {
        !self.is_nan() && !other.is_nan() && self.place() > other.place()
    }

    /// The larger of two.
    pub fn max(self, other: Score) -> (r: Score)
        ensures
            r == larger(self, other),
    {
        if self.is_nan() || other.is_above(self) {
            other
        } else {
            self
        }
    }

    /// The place of a bit pattern among all.
    pub fn total_place(&self) -> (r: i64)
        ensures
            r == total(*self),
    {
        if self.bits >= 0x8000_0000 {
            0x7fff_ffffi64 - self.bits as i64
        } else {
            self.bits as i64
        }
    }
}

} // verus!
