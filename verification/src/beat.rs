//! Positions and lengths on the timeline.
//!
//! A [`Beat`] carries a double-precision number by its bit pattern, so it holds
//! every value the audio side can produce, bit for bit. What the rules of this
//! library ask of a position is how it compares with another one, and that can
//! be read off the bits.

use vstd::prelude::*;

verus! {

/// The weight of the sign bit.
pub const SIGN: u64 = 0x8000_0000_0000_0000;

/// The magnitude of an infinity; larger magnitudes are NaN.
pub const INFINITE: u64 = 0x7ff0_0000_0000_0000;

/// A number of beats, as the bit pattern of an IEEE 754 double.
#[derive(Clone, Copy, Debug, PartialEq, Eq, Structural)]
pub struct Beat {
    pub bits: u64,
}

impl Beat {
    /// The bit pattern without the sign.
    pub open spec fn spec_magnitude(self) -> u64 {
        if self.bits >= SIGN {
            (self.bits - SIGN) as u64
        } else {
            self.bits
        }
    }

    /// Not a number: compares false with everything.
    pub open spec fn spec_is_nan(self) -> bool {
        self.spec_magnitude() > INFINITE
    }

    /// Neither NaN nor an infinity.
    pub open spec fn spec_is_finite(self) -> bool {
        self.spec_magnitude() < INFINITE
    }

    /// The place of a number in the numeric order. Both zeros share one place.
    pub open spec fn rank(self) -> int {
        if self.bits >= SIGN {
            -(self.spec_magnitude() as int)
        } else {
            self.spec_magnitude() as int
        }
    }

    /// The place of a number in the total order that sorting uses: `-0.0` comes
    /// before `0.0`, negative NaN first and positive NaN last.
    pub open spec fn total_rank(self) -> int {
        if self.bits >= SIGN {
            -(self.spec_magnitude() as int) - 1
        } else {
            self.spec_magnitude() as int
        }
    }

    /// Numeric `<=`.
    pub open spec fn spec_le(self, other: Beat) -> bool {
        !self.spec_is_nan() && !other.spec_is_nan() && self.rank() <= other.rank()
    }

    /// Numeric `<`.
    pub open spec fn spec_lt(self, other: Beat) -> bool {
        !self.spec_is_nan() && !other.spec_is_nan() && self.rank() < other.rank()
    }

    /// The number zero.
    pub fn zero() -> (r: Beat)
        ensures
            r.bits == 0,
            r.rank() == 0,
            !r.spec_is_nan(),
    {
        Beat { bits: 0 }
    }

    /// The number with the other sign.
    pub open spec fn spec_neg(self) -> Beat {
        if self.bits >= SIGN {
            Beat { bits: (self.bits - SIGN) as u64 }
        } else {
            Beat { bits: (self.bits + SIGN) as u64 }
        }
    }

    /// The number with the other sign.
    #[verifier::when_used_as_spec(spec_neg)]
    pub fn neg(self) -> (r: Beat)
        ensures
            r == self.spec_neg(),
            r.rank() == -self.rank(),
    {
        if self.bits >= SIGN {
            Beat { bits: self.bits - SIGN }
        } else {
            Beat { bits: self.bits + SIGN }
        }
    }

    /// The bit pattern without the sign.
    #[verifier::when_used_as_spec(spec_magnitude)]
    pub fn magnitude(self) -> (r: u64)
        ensures
            r == self.spec_magnitude(),
            r < SIGN,
    {
        if self.bits >= SIGN {
            self.bits - SIGN
        } else {
            self.bits
        }
    }

    /// Whether this is NaN.
    #[verifier::when_used_as_spec(spec_is_nan)]
    pub fn is_nan(self) -> (r: bool)
        ensures
            r == self.spec_is_nan(),
    {
        self.magnitude() > INFINITE
    }

    /// Whether this is neither NaN nor an infinity.
    #[verifier::when_used_as_spec(spec_is_finite)]
    pub fn is_finite(self) -> (r: bool)
        ensures
            r == self.spec_is_finite(),
    {
        self.magnitude() < INFINITE
    }

    /// The place in the numeric order, see [`Beat::rank`].
    pub fn order_rank(self) -> (r: i64)
        ensures
            r == self.rank(),
    {
        let m: u64 = self.magnitude();
        if self.bits >= SIGN {
            -(m as i64)
        } else {
            m as i64
        }
    }

    /// The place in the total order, see [`Beat::total_rank`].
    pub fn order_total_rank(self) -> (r: i64)
        ensures
            r == self.total_rank(),
    {
        let m: u64 = self.magnitude();
        if self.bits >= SIGN {
            -(m as i64) - 1
        } else {
            m as i64
        }
    }

    /// Numeric `<=`: false when either side is NaN.
    #[verifier::when_used_as_spec(spec_le)]
    pub fn le(self, other: Beat) -> (r: bool)
        ensures
            r == self.spec_le(other),
    {
        !self.is_nan() && !other.is_nan() && self.order_rank() <= other.order_rank()
    }

    /// Numeric `<`: false when either side is NaN.
    #[verifier::when_used_as_spec(spec_lt)]
    pub fn lt(self, other: Beat) -> (r: bool)
        ensures
            r == self.spec_lt(other),
    {
        !self.is_nan() && !other.is_nan() && self.order_rank() < other.order_rank()
    }
}

/// Among numbers, `<=` and `<` are each other's complement, and `<=` is a total
/// order in which only the two zeros share a place.
pub proof fn law_beat_order(a: Beat, b: Beat, c: Beat)
    requires
        !a.is_nan(),
        !b.is_nan(),
        !c.is_nan(),
    ensures
        a.le(b) == !b.lt(a),
        a.le(b) || b.le(a),
        a.le(b) && b.le(c) ==> a.le(c),
        a.le(b) && b.le(a) ==> a == b || (a.magnitude() == 0 && b.magnitude() == 0),
{
}

} // verus!
