//! Settings that are single-precision numbers.
//!
//! A [`Setting`] carries such a number by its bit pattern. What the rules of this
//! library ask of a setting is how it compares with a limit, and that can be
//! read off the bits.

use vstd::prelude::*;

verus! {

/// The weight of the sign bit.
pub const SIGN: u32 = 0x8000_0000;

/// The magnitude of an infinity; larger magnitudes are NaN.
pub const INFINITE: u32 = 0x7f80_0000;

/// A number, as the bit pattern of an IEEE 754 single.
#[derive(Clone, Copy, Debug, PartialEq, Eq, Structural)]
pub struct Setting {
    pub bits: u32,
}

impl Setting {
    /// The bit pattern without the sign.
    pub open spec fn spec_magnitude(self) -> u32 {
        if self.bits >= SIGN {
            (self.bits - SIGN) as u32
        } else {
            self.bits
        }
    }

    /// Not a number: compares false with everything.
    pub open spec fn spec_is_nan(self) -> bool {
        self.spec_magnitude() > INFINITE
    }

    /// The place of a number in the numeric order. Both zeros share one place.
    pub open spec fn rank(self) -> int {
        if self.bits >= SIGN {
            -(self.spec_magnitude() as int)
        } else {
            self.spec_magnitude() as int
        }
    }

    /// Numeric `<=`.
    pub open spec fn spec_le(self, other: Setting) -> bool {
        !self.spec_is_nan() && !other.spec_is_nan() && self.rank() <= other.rank()
    }

    /// Numeric `<`.
    pub open spec fn spec_lt(self, other: Setting) -> bool {
        !self.spec_is_nan() && !other.spec_is_nan() && self.rank() < other.rank()
    }

    /// The number, or the limit that it is beyond. NaN stays.
    pub open spec fn spec_clamped(self, lo: Setting, hi: Setting) -> Setting {
        if self.spec_lt(lo) {
            lo
        } else if hi.spec_lt(self) {
            hi
        } else {
            self
        }
    }

    /// The bit pattern without the sign.
    #[verifier::when_used_as_spec(spec_magnitude)]
    pub fn magnitude(self) -> (r: u32)
        ensures
            r == self.spec_magnitude(),
            r < SIGN,
    {
        if self.bits >= SIGN {
            self.bits - SIGN
        } else {
            self.bits
        }
    }

    /// Whether this is NaN.
    #[verifier::when_used_as_spec(spec_is_nan)]
    pub fn is_nan(self) -> (r: bool)
        ensures
            r == self.spec_is_nan(),
    {
        self.magnitude() > INFINITE
    }

    /// The place in the numeric order, see [`Setting::rank`].
    pub fn order_rank(self) -> (r: i64)
        ensures
            r == self.rank(),
    {
        let m: u32 = self.magnitude();
        if self.bits >= SIGN {
            -(m as i64)
        } else {
            m as i64
        }
    }

    /// Numeric `<=`: false when either side is NaN.
    #[verifier::when_used_as_spec(spec_le)]
    pub fn le(self, other: Setting) -> (r: bool)
        ensures
            r == self.spec_le(other),
    {
        !self.is_nan() && !other.is_nan() && self.order_rank() <= other.order_rank()
    }

    /// Numeric `<`: false when either side is NaN.
    #[verifier::when_used_as_spec(spec_lt)]
    pub fn lt(self, other: Setting) -> (r: bool)
        ensures
            r == self.spec_lt(other),
    {
        !self.is_nan() && !other.is_nan() && self.order_rank() < other.order_rank()
    }

    /// The number, or the limit that it is beyond. NaN stays.
    #[verifier::when_used_as_spec(spec_clamped)]
    pub fn clamped(self, lo: Setting, hi: Setting) -> (r: Setting)
        ensures
            r == self.spec_clamped(lo, hi),
    {
        if self.lt(lo) {
            lo
        } else if hi.lt(self) {
            hi
        } else {
            self
        }
    }
}

/// Between limits that are in order, what is clamped lies between them, and
/// clamping it again changes nothing.
pub proof fn law_clamping_settles(x: Setting, lo: Setting, hi: Setting)
    requires
        lo.le(hi),
    ensures
        !x.is_nan() ==> lo.le(x.clamped(lo, hi)) && x.clamped(lo, hi).le(hi),
        x.clamped(lo, hi).clamped(lo, hi) == x.clamped(lo, hi),
{
}

} // verus!
