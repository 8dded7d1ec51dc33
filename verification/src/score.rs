//! Score numbers as bit patterns.
//!
//! Nothing in this library computes with floating point. A score or a tuning
//! constant passes through as its IEEE-754 binary64 bit pattern, and all that
//! is ever asked of two of them is which comes first.

use vstd::prelude::*;

verus! {

/// Bit patterns below this one have a clear sign bit.
pub const SIGN: u64 = 0x8000_0000_0000_0000;

/// The pattern of positive infinity. A magnitude above it is not a number.
pub const INFINITY: u64 = 0x7FF0_0000_0000_0000;

/// The pattern of negative infinity.
pub const NEG_INFINITY: u64 = 0xFFF0_0000_0000_0000;

/// A binary64 value, held as its bit pattern.
#[derive(Clone, Copy, Debug, PartialEq, Eq, Structural, Hash)]
pub struct Score {
    pub bits: u64,
}

impl Score {
    /// The value of `bits` without its sign bit.
    pub open spec fn magnitude(self) -> int {
        if self.bits < SIGN {
            self.bits as int
        } else {
            self.bits - SIGN
        }
    }

    /// The value is not a number.
    pub open spec fn nan(self) -> bool {
        self.magnitude() > INFINITY
    }

    /// The place of this value in the IEEE total order: every negative value,
    /// larger magnitudes first, then every positive one, smaller first.
    pub open spec fn order(self) -> int {
        if self.bits < SIGN {
            self.bits as int
        } else {
            -1 - self.magnitude()
        }
    }

    /// The place of this value in the numeric order, in which the two zeros are
    /// one.
    pub open spec fn rank(self) -> int {
        if self.bits == SIGN {
            0
        } else {
            self.order()
        }
    }

    /// This value is greater than `other`. What is not a number is greater than
    /// nothing, and nothing is greater than it.
    pub open spec fn beats(self, other: Score) -> bool {
        !self.nan() && !other.nan() && self.rank() > other.rank()
    }

    /// Whether this value is greater than `other`.
    pub fn exceeds(&self, other: &Score) -> (r: bool)
        ensures
            r == self.beats(*other),
    {
        !self.is_nan() && !other.is_nan() && self.rank_key() > other.rank_key()
    }

    /// Whether the value is not a number.
    pub fn is_nan(&self) -> (r: bool)
        ensures
            r == self.nan(),
    {
        let magnitude: u64 = if self.bits < SIGN {
            self.bits
        } else {
            self.bits - SIGN
        };
        magnitude > INFINITY
    }

    /// The place in the total order, as a machine integer.
    pub fn order_key(&self) -> (r: i64)
        ensures
            r == self.order(),
    {
        if self.bits < SIGN {
            self.bits as i64
        } else {
            -1 - (self.bits - SIGN) as i64
        }
    }

    /// The place in the numeric order, as a machine integer.
    pub fn rank_key(&self) -> (r: i64)
        ensures
            r == self.rank(),
    {
        if self.bits == SIGN {
            0
        } else {
            self.order_key()
        }
    }
}

/// Of two numbers the greater beats the other: among positive ones by the bit
/// pattern, among negative ones by the bit pattern turned round, a positive one
/// over a negative one, and neither zero over the other.
pub proof fn the_greater_number_beats_the_other(a: Score, b: Score)
    requires
        !a.nan(),
        !b.nan(),
    ensures
        a.bits < SIGN && b.bits < SIGN ==> (a.beats(b) <==> a.bits > b.bits),
        a.bits >= SIGN && b.bits >= SIGN ==> (a.beats(b) <==> a.bits < b.bits),
        a.bits < SIGN && b.bits > SIGN ==> a.beats(b) && !b.beats(a),
        a.bits == 0 && b.bits == SIGN ==> !a.beats(b) && !b.beats(a),
        0 < a.bits < SIGN && b.bits == SIGN ==> a.beats(b),
{
}

/// Beating is an order among numbers, and what is not a number has no part in
/// it. Not a number is what has a full exponent and a fraction.
pub proof fn beating_is_an_order_of_numbers(a: Score, b: Score, c: Score)
    ensures
        !a.beats(a),
        a.beats(b) ==> !b.beats(a),
        a.beats(b) && b.beats(c) ==> a.beats(c),
        a.nan() ==> !a.beats(b) && !b.beats(a),
        a.nan() <==> (a.bits as int / 0x10_0000_0000_0000) % 2048 == 2047 && a.bits as int
            % 0x10_0000_0000_0000 != 0,
{
    assert(a.magnitude() / 0x10_0000_0000_0000 == (a.bits as int / 0x10_0000_0000_0000) % 2048);
    assert(a.magnitude() % 0x10_0000_0000_0000 == a.bits as int % 0x10_0000_0000_0000);
}

/// The total order has a place for every pattern: it agrees with beating
/// wherever numbers differ, puts the negative zero below the positive one, and
/// what is not a number beyond everything on its own side.
pub proof fn the_total_order_places_every_pattern(a: Score, b: Score)
    ensures
        a.beats(b) ==> a.order() > b.order(),
        a.order() == b.order() <==> a.bits == b.bits,
        a.bits == 0 && b.bits == SIGN ==> a.order() > b.order(),
        a.nan() && a.bits < SIGN && !b.nan() ==> a.order() > b.order(),
        a.nan() && a.bits >= SIGN && !b.nan() ==> a.order() < b.order(),
{
}

} // verus!
