//! Binary64 numbers and their arithmetic, on bit patterns.
//!
//! Scores, thresholds and confidences are binary64 numbers. They are held here
//! as bit patterns, so that what each operation returns can be stated over
//! whole numbers and proved: the exact result, rounded to the nearest number.
use crate::rounding::{rounded, units, INFINITE_MAGNITUDE};
use vstd::arithmetic::power2::pow2;
use vstd::prelude::*;

verus! {

/// The weight of the sign bit.
pub const SIGN_BIT: u64 = 0x8000_0000_0000_0000;

/// A quiet NaN.
pub const NAN_BITS: u64 = 0x7ff8_0000_0000_0000;

/// 1.0
pub const ONE_BITS: u64 = 0x3ff0_0000_0000_0000;

/// 100.0
pub const HUNDRED_BITS: u64 = 0x4059_0000_0000_0000;

/// 10000.0
pub const TEN_THOUSAND_BITS: u64 = 0x40c3_8800_0000_0000;

/// The largest finite number.
pub const LARGEST_BITS: u64 = 0x7fef_ffff_ffff_ffff;

/// A binary64 number. `==` holds of equal bit patterns; the numeric order is
/// `less`, `at_least` and `above`.
#[derive(Clone, Copy, Debug, PartialEq, Eq, Structural)]
pub struct Double {
    pub bits: u64,
}

/// The number with a given sign and magnitude.
pub open spec fn signed(negative: bool, magnitude: nat) -> Double {
    Double {
        bits: (if negative {
            SIGN_BIT + magnitude
        } else {
            magnitude as int
        }) as u64,
    }
}

/// 0.0
pub open spec fn zero() -> Double {
    Double { bits: 0 }
}

/// 1.0
pub open spec fn one() -> Double {
    Double { bits: ONE_BITS }
}

/// 100.0
pub open spec fn hundred() -> Double {
    Double { bits: HUNDRED_BITS }
}

/// 10000.0
pub open spec fn ten_thousand() -> Double {
    Double { bits: TEN_THOUSAND_BITS }
}

/// Not a number.
pub open spec fn nan() -> Double {
    Double { bits: NAN_BITS }
}

/// One, counted in units.
pub open spec fn one_in_units() -> nat {
    pow2(1074)
}

impl Double {
    /// The bit pattern without the sign bit.
    pub open spec fn magnitude(self) -> nat {
        (self.bits % SIGN_BIT) as nat
    }

    /// Whether the sign bit is set.
    pub open spec fn negative(self) -> bool {
        self.bits >= SIGN_BIT
    }

    pub open spec fn nan(self) -> bool {
        self.magnitude() > INFINITE_MAGNITUDE
    }

    pub open spec fn finite(self) -> bool {
        self.magnitude() < INFINITE_MAGNITUDE
    }

    /// The value of a finite number, in units of 2^-1074.
    pub open spec fn value(self) -> int {
        if self.negative() {
            -(units(self.magnitude()) as int)
        } else {
            units(self.magnitude()) as int
        }
    }

    /// The place of a number that is not NaN in the numeric order.
    pub open spec fn rank(self) -> int {
        if self.negative() {
            -(self.magnitude() as int)
        } else {
            self.magnitude() as int
        }
    }
}

/// `a < b`.
pub open spec fn less(a: Double, b: Double) -> bool {
    !a.nan() && !b.nan() && a.rank() < b.rank()
}

/// `a >= b`.
pub open spec fn at_least(a: Double, b: Double) -> bool {
    !a.nan() && !b.nan() && a.rank() >= b.rank()
}

/// `a + b`.
pub open spec fn sum(a: Double, b: Double) -> Double {
    if a.nan() || b.nan() {
        nan()
    } else if !a.finite() {
        if !b.finite() && a.negative() != b.negative() {
            nan()
        } else {
            a
        }
    } else if !b.finite() {
        b
    } else {
        let exact = a.value() + b.value();
        if exact == 0 {
            signed(a.negative() && b.negative(), 0)
        } else if exact < 0 {
            signed(true, rounded((-exact) as nat, 1))
        } else {
            signed(false, rounded(exact as nat, 1))
        }
    }
}

/// `-a`.
pub open spec fn opposite(a: Double) -> Double {
    signed(!a.negative(), a.magnitude())
}

/// `a - b`.
pub open spec fn difference(a: Double, b: Double) -> Double {
    sum(a, opposite(b))
}

/// `a * b`.
pub open spec fn product(a: Double, b: Double) -> Double {
    let negative = a.negative() != b.negative();
    if a.nan() || b.nan() {
        nan()
    } else if !a.finite() || !b.finite() {
        if a.magnitude() == 0 || b.magnitude() == 0 {
            nan()
        } else {
            signed(negative, INFINITE_MAGNITUDE as nat)
        }
    } else {
        signed(
            negative,
            rounded(units(a.magnitude()) * units(b.magnitude()), one_in_units()),
        )
    }
}

/// `a / b`.
pub open spec fn quotient(a: Double, b: Double) -> Double {
    let negative = a.negative() != b.negative();
    if a.nan() || b.nan() {
        nan()
    } else if !a.finite() {
        if !b.finite() {
            nan()
        } else {
            signed(negative, INFINITE_MAGNITUDE as nat)
        }
    } else if !b.finite() {
        signed(negative, 0)
    } else if b.magnitude() == 0 {
        if a.magnitude() == 0 {
            nan()
        } else {
            signed(negative, INFINITE_MAGNITUDE as nat)
        }
    } else {
        signed(
            negative,
            rounded(units(a.magnitude()) * one_in_units(), units(b.magnitude())),
        )
    }
}

/// `a` rounded to a whole number, a half going away from zero.
pub open spec fn whole(a: Double) -> Double {
    if !a.finite() {
        a
    } else {
        let w = (2 * units(a.magnitude()) + one_in_units()) / (2 * one_in_units());
        signed(a.negative(), rounded(w * one_in_units(), 1))
    }
}

/// The whole part of the absolute value of a finite number.
pub open spec fn whole_part(a: Double) -> nat {
    units(a.magnitude()) / one_in_units()
}

/// `a as u8`: cut towards zero and held within the range, NaN giving zero.
pub open spec fn to_byte(a: Double) -> u8 {
    if a.nan() || a.negative() {
        0
    } else if !a.finite() || whole_part(a) >= 255 {
        255
    } else {
        whole_part(a) as u8
    }
}

/// `a as i32`: cut towards zero and held within the range, NaN giving zero.
pub open spec fn to_int32(a: Double) -> i32 {
    if a.nan() {
        0
    } else if a.negative() {
        if !a.finite() || whole_part(a) >= 0x8000_0000 {
            i32::MIN
        } else {
            -whole_part(a) as i32
        }
    } else {
        if !a.finite() || whole_part(a) >= 0x7fff_ffff {
            i32::MAX
        } else {
            whole_part(a) as i32
        }
    }
}

/// A whole number as a binary64 number.
pub open spec fn from_nat(v: nat) -> Double {
    signed(false, rounded(v * one_in_units(), 1))
}

/// A whole number with its sign as a binary64 number.
pub open spec fn from_int(v: int) -> Double {
    if v < 0 {
        signed(true, rounded((-v) as nat * one_in_units(), 1))
    } else {
        from_nat(v as nat)
    }
}

/// The value of a finite binary32 number without its sign, in units of 2^-1074.
pub open spec fn single_units(magnitude: nat) -> nat {
    let exponent = magnitude / 0x80_0000;
    let fraction = magnitude % 0x80_0000;
    if exponent == 0 {
        fraction * pow2(925)
    } else {
        (0x80_0000 + fraction) as nat * pow2((exponent + 924) as nat)
    }
}

/// A binary32 bit pattern as a binary64 number.
pub open spec fn widened(bits: u32) -> Double {
    let negative = bits >= 0x8000_0000u32;
    let magnitude = (bits % 0x8000_0000u32) as nat;
    if magnitude > 0x7f80_0000 {
        nan()
    } else if magnitude == 0x7f80_0000 {
        signed(negative, INFINITE_MAGNITUDE as nat)
    } else {
        signed(negative, rounded(single_units(magnitude), 1))
    }
}

impl Double {
    pub(crate) fn magnitude_bits(self) -> (magnitude: u64)
        ensures
            magnitude == self.magnitude(),
    {
        self.bits % SIGN_BIT
    }

    pub(crate) fn is_negative(self) -> (negative: bool)
        ensures
            negative == self.negative(),
    {
        self.bits >= SIGN_BIT
    }

    pub fn is_nan(self) -> (r: bool)
        ensures
            r == self.nan(),
    {
        self.magnitude_bits() > INFINITE_MAGNITUDE
    }

    pub fn is_finite(self) -> (r: bool)
        ensures
            r == self.finite(),
    {
        self.magnitude_bits() < INFINITE_MAGNITUDE
    }

    pub(crate) fn put_together(negative: bool, magnitude: u64) -> (r: Double)
        requires
            magnitude < SIGN_BIT,
        ensures
            r == signed(negative, magnitude as nat),
    {
        if negative {
            Double { bits: SIGN_BIT + magnitude }
        } else {
            Double { bits: magnitude }
        }
    }

    pub(crate) fn rank_bits(self) -> (rank: i64)
        ensures
            rank == self.rank(),
    {
        let magnitude: u64 = self.magnitude_bits();
        if self.is_negative() {
            -(magnitude as i64)
        } else {
            magnitude as i64
        }
    }

    /// `self < other`.
    pub fn less(self, other: Double) -> (r: bool)
        ensures
            r == less(self, other),
    {
        !self.is_nan() && !other.is_nan() && self.rank_bits() < other.rank_bits()
    }

    /// `self >= other`.
    pub fn at_least(self, other: Double) -> (r: bool)
        ensures
            r == at_least(self, other),
    {
        !self.is_nan() && !other.is_nan() && self.rank_bits() >= other.rank_bits()
    }

    /// `self > other`.
    pub fn above(self, other: Double) -> (r: bool)
        ensures
            r == less(other, self),
    {
        other.less(self)
    }
}

} // verus!
