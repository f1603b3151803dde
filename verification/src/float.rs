//! All binary32 numbers: with a sign, the infinities and what is not a number.

use vstd::math::abs;
use vstd::prelude::*;

use crate::binary32::{
    law_whole_part_drops_the_fraction, lemma_units_compare, whole_part, Binary32,
};
use crate::rounding::{
    in_range, is_finite, lemma_nearest, one, rounded, rounds_to, units, INFINITY_BITS,
};

verus! {

/// The pattern of the sign alone.
pub const SIGN_BIT: u32 = 0x8000_0000;

/// The pattern of the result that is not a number.
pub const NAN_BITS: u32 = 0x7fc0_0000;

/// Whether a pattern has the sign.
pub open spec fn is_negative(bits: u32) -> bool {
    bits >= SIGN_BIT
}

/// A pattern without its sign.
pub open spec fn magnitude(bits: u32) -> u32 {
    if is_negative(bits) {
        (bits - SIGN_BIT) as u32
    } else {
        bits
    }
}

/// A magnitude with a sign.
pub open spec fn signed(negative: bool, magnitude: u32) -> u32 {
    if negative {
        (magnitude + SIGN_BIT) as u32
    } else {
        magnitude
    }
}

/// Whether a pattern is not that of a number.
pub open spec fn is_nan(bits: u32) -> bool {
    magnitude(bits) > INFINITY_BITS
}

/// Whether a pattern is that of an infinity.
pub open spec fn is_infinite(bits: u32) -> bool {
    magnitude(bits) == INFINITY_BITS
}

/// The value of a finite pattern, counted in units.
pub open spec fn value(bits: u32) -> int {
    if is_negative(bits) {
        -(units(magnitude(bits)) as int)
    } else {
        units(magnitude(bits)) as int
    }
}

/// Where a number stands in the order of all numbers. The magnitudes are
/// ordered as their patterns are, and the two zeros stand in one place.
pub open spec fn rank(bits: u32) -> int {
    if is_negative(bits) {
        -(magnitude(bits) as int)
    } else {
        magnitude(bits) as int
    }
}

/// Whether one pattern is a smaller number than another; nothing is smaller or
/// larger than what is not a number.
pub open spec fn smaller(a: u32, b: u32) -> bool {
    !is_nan(a) && !is_nan(b) && rank(a) < rank(b)
}

/// Whether a pattern is a number of at most zero.
pub open spec fn at_most_zero(bits: u32) -> bool {
    !is_nan(bits) && rank(bits) <= 0
}

/// The product of two patterns.
pub open spec fn float_product(a: u32, b: u32) -> u32 {
    let negative = is_negative(a) != is_negative(b);
    if is_nan(a) || is_nan(b) {
        NAN_BITS
    } else if is_infinite(a) || is_infinite(b) {
        if magnitude(a) == 0 || magnitude(b) == 0 {
            NAN_BITS
        } else {
            signed(negative, INFINITY_BITS)
        }
    } else {
        signed(negative, rounded(units(magnitude(a)) * units(magnitude(b)), one()))
    }
}

/// The sum of two patterns.
pub open spec fn float_sum(a: u32, b: u32) -> u32 {
    let exact = value(a) + value(b);
    if is_nan(a) || is_nan(b) {
        NAN_BITS
    } else if is_infinite(a) && is_infinite(b) {
        if is_negative(a) == is_negative(b) {
            a
        } else {
            NAN_BITS
        }
    } else if is_infinite(a) {
        a
    } else if is_infinite(b) {
        b
    } else if exact == 0 {
        signed(is_negative(a) && is_negative(b), 0)
    } else if exact < 0 {
        signed(true, rounded((-exact) as nat, 1))
    } else {
        rounded(exact as nat, 1)
    }
}

/// The integer part of a pattern: zero for what is not a number and for
/// negative numbers, and the largest `u32` where it is larger than that.
pub open spec fn integer_part(bits: u32) -> u32 {
    if is_nan(bits) || is_negative(bits) {
        0
    } else if is_infinite(bits) || whole_part(bits) > u32::MAX {
        u32::MAX
    } else {
        whole_part(bits) as u32
    }
}

/// A binary32 number of any kind; its view is its bit pattern.
#[derive(Clone, Copy, Debug)]
pub struct Float {
    bits: u32,
}

impl View for Float {
    type V = u32;

    closed spec fn view(&self) -> u32 {
        self.bits
    }
}

impl Float {
    /// The number of a bit pattern.
    pub fn from_bits(bits: u32) -> (r: Float)
        ensures
            r@ == bits,
    {
        Float { bits }
    }

    /// The bit pattern of the number.
    pub fn to_bits(self) -> (bits: u32)
        ensures
            bits == self@,
    {
        self.bits
    }

    /// A nonnegative finite number.
    pub fn from_number(number: Binary32) -> (r: Float)
        ensures
            r@ == number@,
    {
        Float { bits: number.to_bits() }
    }

    /// What is not a number.
    pub fn nan() -> (r: Float)
        ensures
            r@ == NAN_BITS,
    {
        Float { bits: NAN_BITS }
    }

    /// Whether this is not a number.
    pub fn is_nan(self) -> (r: bool)
        ensures
            r == is_nan(self@),
    {
        self.parts().1 > INFINITY_BITS
    }

    /// Whether the number has the sign.
    pub fn is_negative(self) -> (r: bool)
        ensures
            r == is_negative(self@),
    {
        self.parts().0
    }

    /// Whether this is a number of at most zero.
    pub fn is_at_most_zero(self) -> (r: bool)
        ensures
            r == at_most_zero(self@),
    {
        let (negative, magnitude) = self.parts();
        magnitude == 0 || (negative && magnitude <= INFINITY_BITS)
    }

    /// The nonnegative finite number that this is, if it is one.
    pub fn number(self) -> (r: Option<Binary32>)
        ensures
            r is Some <==> is_finite(self@),
            r matches Some(number) ==> number@ == self@,
    {
        if self.bits < INFINITY_BITS {
            Some(Binary32::from_bits(self.bits))
        } else {
            None
        }
    }

    /// The product.
    pub fn times(self, other: Float) -> (r: Float)
        ensures
            r@ == float_product(self@, other@),
    {
        let (negative_a, a) = self.parts();
        let (negative_b, b) = other.parts();
        if a > INFINITY_BITS || b > INFINITY_BITS {
            return Float::nan();
        }
        let magnitude: u32 = if a == INFINITY_BITS || b == INFINITY_BITS {
            if a == 0 || b == 0 {
                return Float::nan();
            }
            INFINITY_BITS
        } else {
            Binary32::from_bits(a).product_pattern(Binary32::from_bits(b))
        };
        if negative_a != negative_b {
            Float { bits: magnitude + SIGN_BIT }
        } else {
            Float { bits: magnitude }
        }
    }

    /// The integer part: zero for what is not a number and for negative
    /// numbers, and the largest `u32` where it is larger than that.
    pub fn to_u32(self) -> (r: u32)
        ensures
            r == integer_part(self@),
    {
        match self.number() {
            Some(number) => number.to_u32(),
            None => {
                if self.bits == INFINITY_BITS {
                    u32::MAX
                } else {
                    0
                }
            },
        }
    }

    /// The sign and the magnitude.
    fn parts(self) -> (r: (bool, u32))
        ensures
            r.0 == is_negative(self@),
            r.1 == magnitude(self@),
    {
        if self.bits >= SIGN_BIT {
            (true, self.bits - SIGN_BIT)
        } else {
            (false, self.bits)
        }
    }
}

/// The patterns from the sign on are negative; without the sign, those above
/// the pattern of infinity are not numbers.
pub proof fn law_kinds_of_patterns(bits: u32)
    ensures
        is_negative(bits) <==> bits >= 0x8000_0000,
        magnitude(bits) == bits % 0x8000_0000,
        is_infinite(bits) <==> bits == 0x7f80_0000 || bits == 0xff80_0000,
        is_nan(bits) <==> 0x7f80_0000 < bits < 0x8000_0000 || 0xff80_0000 < bits,
        at_most_zero(bits) <==> bits == 0 || 0x8000_0000 <= bits <= 0xff80_0000,
        bits < 0x7f80_0000 ==> value(bits) == units(bits),
        0x8000_0000 <= bits < 0xff80_0000 ==> value(bits) == -units((bits - 0x8000_0000) as u32),
{
}

/// Numbers are ordered by their values, with the infinities at the ends; what
/// is not a number has no place in the order.
pub proof fn law_order_is_that_of_the_values(a: u32, b: u32)
    ensures
        is_finite(magnitude(a)) && is_finite(magnitude(b)) ==> (smaller(a, b) <==> value(a) < value(
            b,
        )),
        is_nan(a) || is_nan(b) ==> !smaller(a, b),
        !is_nan(a) ==> (smaller(a, 0x7f80_0000) <==> a != 0x7f80_0000) && !smaller(0x7f80_0000, a),
        !is_nan(a) ==> (smaller(0xff80_0000, a) <==> a != 0xff80_0000) && !smaller(a, 0xff80_0000),
{
    if is_finite(magnitude(a)) && is_finite(magnitude(b)) {
        lemma_units_compare(magnitude(a), magnitude(b));
        crate::ratio::lemma_units_zero(magnitude(a));
        crate::ratio::lemma_units_zero(magnitude(b));
    }
}

/// The product of two finite numbers is the exact one, rounded, and infinite
/// where that is out of range; it has the sign where one of them has it. With
/// an infinity it is infinite, but not a number with zero.
pub proof fn law_product_of_any_numbers(a: u32, b: u32, r: u32)
    ensures
        ({
            let exact = units(a % 0x8000_0000) * units(b % 0x8000_0000);
            let sign: int = if (a >= 0x8000_0000) != (b >= 0x8000_0000) {
                0x8000_0000
            } else {
                0
            };
            let finite = a % 0x8000_0000 < 0x7f80_0000 && b % 0x8000_0000 < 0x7f80_0000;
            let product = float_product(a, b);
            &&& finite && in_range(exact, one()) && rounds_to(r, exact, one()) ==> product == r
                + sign
            &&& finite && !in_range(exact, one()) ==> product == 0x7f80_0000 + sign
            &&& is_infinite(a) && !is_nan(b) && b % 0x8000_0000 != 0 ==> product == 0x7f80_0000
                + sign
            &&& is_infinite(b) && !is_nan(a) && a % 0x8000_0000 != 0 ==> product == 0x7f80_0000
                + sign
            &&& is_infinite(a) && b % 0x8000_0000 == 0 ==> is_nan(product)
            &&& is_infinite(b) && a % 0x8000_0000 == 0 ==> is_nan(product)
            &&& is_nan(a) || is_nan(b) ==> is_nan(product)
        }),
{
    let exact = units(a % 0x8000_0000) * units(b % 0x8000_0000);
    crate::ratio::lemma_one_bits();
    assert(magnitude(a) == a % 0x8000_0000);
    assert(magnitude(b) == b % 0x8000_0000);
    if rounds_to(r, exact, one()) {
        lemma_nearest(r, exact, one());
    }
}

/// The sum of two finite numbers is the exact one, rounded, and infinite where
/// that is out of range. An infinity stays, but two with different signs give
/// no number.
pub proof fn law_sum_of_any_numbers(a: u32, b: u32, r: u32)
    ensures
        ({
            let exact = value(a) + value(b);
            let size = abs(exact);
            let sign: int = if exact < 0 {
                0x8000_0000
            } else {
                0
            };
            let finite = a % 0x8000_0000 < 0x7f80_0000 && b % 0x8000_0000 < 0x7f80_0000;
            let sum = float_sum(a, b);
            &&& finite && exact != 0 && in_range(size, 1) && rounds_to(r, size, 1) ==> sum == r
                + sign
            &&& finite && exact != 0 && !in_range(size, 1) ==> sum == 0x7f80_0000 + sign
            &&& finite && exact == 0 ==> sum == (if a >= 0x8000_0000 && b >= 0x8000_0000 {
                0x8000_0000int
            } else {
                0
            })
            &&& is_infinite(a) && !is_nan(b) && !(is_infinite(b) && a != b) ==> sum == a
            &&& is_infinite(b) && !is_nan(a) && !(is_infinite(a) && a != b) ==> sum == b
            &&& is_infinite(a) && is_infinite(b) && a != b ==> is_nan(sum)
            &&& is_nan(a) || is_nan(b) ==> is_nan(sum)
        }),
{
    let size = abs(value(a) + value(b));
    if rounds_to(r, size, 1) {
        lemma_nearest(r, size, 1);
    }
}

/// The integer part of a finite number that is not negative is at most the
/// number, and less than one below it unless it is the largest `u32`. An
/// infinity gives that one, and everything else zero.
pub proof fn law_integer_part_drops_the_fraction(bits: u32)
    ensures
        bits < 0x7f80_0000 ==> integer_part(bits) * one() <= units(bits),
        bits < 0x7f80_0000 && integer_part(bits) < 0xffff_ffff ==> units(bits) < (integer_part(bits)
            + 1) * one(),
        bits == 0x7f80_0000 ==> integer_part(bits) == 0xffff_ffff,
        bits > 0x7f80_0000 ==> integer_part(bits) == 0,
{
    let w = whole_part(bits);
    law_whole_part_drops_the_fraction(bits);
    if bits < 0x7f80_0000 && w > u32::MAX {
        assert(u32::MAX * one() <= w * one()) by (nonlinear_arith)
            requires
                w > u32::MAX,
        ;
    }
}

}
