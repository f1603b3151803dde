//! Ratios between zero and one.

use vstd::arithmetic::power2::{lemma_pow2_adds, lemma_pow2_pos, pow2};
use vstd::math::abs;
use vstd::prelude::*;

use crate::binary32::{
    from_integer, law_whole_part_drops_the_fraction, lemma_integer_in_range, lemma_units_compare,
    product_of, quotient_of, whole_part, Binary32,
};
use crate::float::Float;
use crate::rounding::{
    in_range, is_finite, law_rounding_error_is_small, lemma_in_range_rounds, lemma_nearest,
    lemma_representable, lemma_round_exact, lemma_rounding_monotone, lemma_rounds_to_scaled,
    lemma_small_in_range, lemma_units_at, one, rounds_to, units,
};

verus! {

/// The bit pattern of the number one.
pub const ONE_BITS: u32 = 0x3f80_0000;

/// The pattern of one has the value one.
pub proof fn lemma_one_bits()
    ensures
        units(ONE_BITS) == one(),
        is_finite(ONE_BITS),
        one() > 0,
{
    lemma_units_at(126, 0x80_0000);
    lemma_pow2_adds(23, 126);
    vstd::arithmetic::power2::lemma2_to64();
    lemma_pow2_pos(149);
}

/// Integers of up to 24 bits are numbers.
pub proof fn lemma_integer_exact(n: nat)
    requires
        n <= 0x100_0000,
    ensures
        units(from_integer(n)) == n * one(),
        is_finite(from_integer(n)),
{
    let bits = lemma_representable(n, 149);
    lemma_round_exact(bits, n * one(), 1);
}

/// The ratio that a level of a light stands for: its share of 255.
pub open spec fn level_ratio(level: u8) -> u32 {
    quotient_of(from_integer(level as nat), from_integer(255))
}

/// The level that a ratio stands for: its share of 255, without the fraction.
pub open spec fn ratio_level(ratio: u32) -> u8 {
    let whole = whole_part(product_of(ratio, from_integer(255)));
    if whole <= 255 {
        whole as u8
    } else {
        255
    }
}

proof fn lemma_factor_order(a: nat, b: nat, w: nat)
    by (nonlinear_arith)
    requires
        w > 0,
    ensures
        a < b <==> a * w < b * w,
        a <= b <==> a * w <= b * w,
        a == b <==> a * w == b * w,
{
}

/// The rounded share of a level whose significand at scale `t` is `c`.
proof fn lemma_level_share(level: nat, t: nat, g: nat, c: nat) -> (q: nat)
    requires
        8 <= t < 200,
        one() == g * pow2(t),
        c == level * g,
        0x80_0000 <= c < 0xff_0000,
    ensures
        q == (if c % 255 <= 127 { c + c / 255 } else { c + c / 255 + 1 }),
        rounds_to(
            ((t - 8) * 0x80_0000 + q) as u32,
            (level * one()) * one(),
            255 * one(),
        ),
        units(((t - 8) * 0x80_0000 + q) as u32) == q * pow2((t - 8) as nat),
{
    let p = pow2((t - 8) as nat);
    let w = p * one();
    let q0 = c + c / 255;
    let r = c % 255;
    let low = ((t - 8) * 0x80_0000 + q0) as u32;
    let high = (low + 1) as u32;
    let num = (level * one()) * one();
    let den = 255 * one();
    lemma_pow2_adds(8, (t - 8) as nat);
    vstd::arithmetic::power2::lemma2_to64();
    lemma_one_bits();
    lemma_pow2_pos((t - 8) as nat);
    assert(w > 0) by (nonlinear_arith)
        requires
            w == p * one(),
            p > 0,
            one() > 0,
    ;
    lemma_units_at((t - 8) as nat, q0);
    lemma_units_at((t - 8) as nat, q0 + 1);
    assert(num == (256 * c) * w) by (nonlinear_arith)
        requires
            num == (level * one()) * one(),
            one() == g * (256 * p),
            c == level * g,
            w == p * one(),
    ;
    assert(units(low) * den == (255 * q0) * w) by (nonlinear_arith)
        requires
            units(low) == q0 * p,
            den == 255 * one(),
            w == p * one(),
    ;
    assert(units(high) * den == (255 * (q0 + 1)) * w) by (nonlinear_arith)
        requires
            units(high) == (q0 + 1) * p,
            den == 255 * one(),
            w == p * one(),
    ;
    assert(256 * c == 255 * q0 + r);
    lemma_factor_order(255 * q0, 256 * c, w);
    lemma_factor_order(256 * c, 255 * (q0 + 1), w);
    assert(2 * num == (2 * (256 * c)) * w) by (nonlinear_arith)
        requires
            num == (256 * c) * w,
    ;
    assert(units(low) * den + units(high) * den == (255 * q0 + 255 * (q0 + 1)) * w)
        by (nonlinear_arith)
        requires
            units(low) * den == (255 * q0) * w,
            units(high) * den == (255 * (q0 + 1)) * w,
    ;
    lemma_factor_order(2 * (256 * c), 255 * q0 + 255 * (q0 + 1), w);
    crate::rounding::lemma_round_between(low, num, den);
    if r <= 127 {
        q0
    } else {
        q0 + 1
    }
}

/// Scaling the rounded share back gives the level.
proof fn lemma_share_of_level(level: nat, t: nat, g: nat, c: nat, q: nat)
    requires
        8 <= t < 200,
        one() == g * pow2(t),
        c == level * g,
        0x80_0000 <= c < 0xff_0000,
        q == (if c % 255 <= 127 { c + c / 255 } else { c + c / 255 + 1 }),
    ensures
        rounds_to(
            (t * 0x80_0000 + c) as u32,
            (q * pow2((t - 8) as nat)) * (255 * one()),
            one(),
        ),
        units((t * 0x80_0000 + c) as u32) == level * one(),
{
    let p = pow2((t - 8) as nat);
    let w = p * one();
    let bits = (t * 0x80_0000 + c) as u32;
    let num = (q * p) * (255 * one());
    lemma_pow2_adds(8, (t - 8) as nat);
    vstd::arithmetic::power2::lemma2_to64();
    lemma_one_bits();
    lemma_pow2_pos((t - 8) as nat);
    assert(w > 0) by (nonlinear_arith)
        requires
            w == p * one(),
            p > 0,
            one() > 0,
    ;
    lemma_units_at(t, c);
    assert(units(bits) == level * one()) by (nonlinear_arith)
        requires
            units(bits) == c * pow2(t),
            one() == g * pow2(t),
            c == level * g,
    ;
    assert(num == (255 * q) * w) by (nonlinear_arith)
        requires
            num == (q * p) * (255 * one()),
            w == p * one(),
    ;
    assert(units(bits) * one() == (256 * c) * w) by (nonlinear_arith)
        requires
            units(bits) == c * (256 * p),
            w == p * one(),
    ;
    assert(2 * num == (2 * (255 * q)) * w) by (nonlinear_arith)
        requires
            num == (255 * q) * w,
    ;
    let low = if 255 * q >= 256 * c { bits } else { (bits - 1) as u32 };
    let k = if 255 * q >= 256 * c { c } else { (c - 1) as nat };
    if 255 * q < 256 * c {
        assert(c != 0x80_0000);
    }
    let high = (low + 1) as u32;
    lemma_units_at(t, k);
    lemma_units_at(t, k + 1);
    assert(units(low) * one() == (256 * k) * w) by (nonlinear_arith)
        requires
            units(low) == k * (256 * p),
            w == p * one(),
    ;
    assert(units(high) * one() == (256 * (k + 1)) * w) by (nonlinear_arith)
        requires
            units(high) == (k + 1) * (256 * p),
            w == p * one(),
    ;
    assert(units(low) * one() + units(high) * one() == (256 * k + 256 * (k + 1)) * w)
        by (nonlinear_arith)
        requires
            units(low) * one() == (256 * k) * w,
            units(high) * one() == (256 * (k + 1)) * w,
    ;
    lemma_factor_order(256 * k, 255 * q, w);
    lemma_factor_order(255 * q, 256 * (k + 1), w);
    lemma_factor_order(2 * (255 * q), 256 * k + 256 * (k + 1), w);
    crate::rounding::lemma_round_between(low, num, one());
}

/// The scale and the factor that make a level between 1 and 254 a significand
/// of full width.
proof fn lemma_level_scale(level: u8) -> (r: (nat, nat))
    requires
        1 <= level < 255,
    ensures
        8 <= r.0 < 200,
        one() == r.1 * pow2(r.0),
        0x80_0000 <= level * r.1 < 0xff_0000,
{
    vstd::arithmetic::power2::lemma2_to64();
    if level >= 128 {
        lemma_pow2_adds(16, 133);
        (133, 0x10000)
    } else if level >= 64 {
        lemma_pow2_adds(17, 132);
        (132, 0x20000)
    } else if level >= 32 {
        lemma_pow2_adds(18, 131);
        (131, 0x40000)
    } else if level >= 16 {
        lemma_pow2_adds(19, 130);
        (130, 0x80000)
    } else if level >= 8 {
        lemma_pow2_adds(20, 129);
        (129, 0x100000)
    } else if level >= 4 {
        lemma_pow2_adds(21, 128);
        (128, 0x200000)
    } else if level >= 2 {
        lemma_pow2_adds(22, 127);
        (127, 0x400000)
    } else {
        lemma_pow2_adds(23, 126);
        (126, 0x800000)
    }
}

/// A level that is turned into a ratio and back is the same level.
pub proof fn law_level_survives_ratio(level: u8)
    ensures
        ratio_level(level_ratio(level)) == level,
{
    let top = from_integer(255);
    lemma_one_bits();
    lemma_integer_exact(255);
    lemma_integer_exact(level as nat);
    let ratio = level_ratio(level);
    let num = units(from_integer(level as nat)) * one();
    let den = units(top);
    assert(den > 0);
    if level == 0 {
        assert(units(0) == 0) by {
            assert(0 * pow2(0) == 0);
        }
        assert(num == 0 * den);
        lemma_round_exact(0, num, den);
        assert(0 * den == 0 * one());
        lemma_round_exact(0, units(ratio) * den, one());
        assert(0int / one() as int == 0) by {
            vstd::arithmetic::div_mod::lemma_div_basics_1(one() as int);
        }
    } else if level == 255 {
        assert(num == units(ONE_BITS) * den) by (nonlinear_arith)
            requires
                num == den * one(),
                units(ONE_BITS) == one(),
        ;
        lemma_round_exact(ONE_BITS, num, den);
        assert(units(ONE_BITS) * den == units(top) * one()) by (nonlinear_arith)
            requires
                den == units(top),
                units(ONE_BITS) == one(),
        ;
        lemma_round_exact(top, units(ratio) * den, one());
        lemma_whole_integer(255);
    } else {
        let (t, g) = lemma_level_scale(level);
        let c = (level as nat) * g;
        let q = lemma_level_share(level as nat, t, g, c);
        lemma_nearest(((t - 8) * 0x80_0000 + q) as u32, num, den);
        lemma_share_of_level(level as nat, t, g, c, q);
        lemma_nearest((t * 0x80_0000 + c) as u32, units(ratio) * den, one());
        lemma_whole_integer(level as nat);
    }
}

/// The integer part of an integer is itself.
pub proof fn lemma_whole_integer(n: nat)
    ensures
        (n * one()) / one() == n,
{
    lemma_one_bits();
    vstd::arithmetic::div_mod::lemma_div_multiples_vanish(n as int, one() as int);
    assert(one() * n == n * one()) by (nonlinear_arith);
}

/// A number between zero and one; its view is its bit pattern.
#[derive(Clone, Copy, Debug)]
pub struct Ratio {
    value: Binary32,
}

impl View for Ratio {
    type V = u32;

    closed spec fn view(&self) -> u32 {
        self.value@
    }
}

impl Ratio {
    /// The number is at most one.
    #[verifier::type_invariant]
    pub open spec fn valid(self) -> bool {
        self@ <= ONE_BITS
    }

    /// The ratio one.
    pub fn full() -> (r: Ratio)
        ensures
            r@ == ONE_BITS,
    {
        proof {
            lemma_from_one();
        }
        Ratio { value: Binary32::from_u32(1) }
    }

    /// A number, or one where it is larger.
    pub fn capped(value: Binary32) -> (r: Ratio)
        ensures
            r@ == (if value@ <= ONE_BITS { value@ } else { ONE_BITS }),
    {
        let full = Ratio::full();
        if full.value.less_than(value) {
            full
        } else {
            Ratio { value }
        }
    }

    /// The share of 255 that a level is.
    pub fn of_level(level: u8) -> (r: Ratio)
        ensures
            r@ == level_ratio(level),
    {
        let value = Binary32::from_u32(level as u32);
        let top = Binary32::from_u32(255);
        proof {
            lemma_level_ratio_rounds(level);
        }
        Ratio { value: value.divided_by(top) }
    }

    /// The level whose share of 255 the ratio is, without a fraction.
    pub fn to_level(self) -> (r: u8)
        ensures
            r == ratio_level(self@),
    {
        proof {
            use_type_invariant(self);
            lemma_ratio_at_most_one(self@);
            lemma_integer_exact(255);
            lemma_share_in_range(units(self@), 255);
        }
        self.value.times(Binary32::from_u32(255)).to_u8()
    }

    /// Whether the ratio is zero.
    pub fn is_zero(self) -> (r: bool)
        ensures
            r <==> self@ == 0,
            r <==> units(self@) == 0,
    {
        proof {
            use_type_invariant(self);
            lemma_units_zero(self@);
        }
        self.value.to_bits() == 0
    }

    /// The ratio among the numbers of any kind.
    pub fn float(self) -> (r: Float)
        ensures
            r@ == self@,
            r@ <= ONE_BITS,
    {
        Float::from_number(self.number())
    }

    /// The ratio as a number.
    pub fn number(self) -> (r: Binary32)
        ensures
            r@ == self@,
            r@ <= ONE_BITS,
    {
        proof {
            use_type_invariant(self);
        }
        self.value
    }
}

/// The integer one has the pattern of one.
pub proof fn lemma_from_one()
    ensures
        from_integer(1) == ONE_BITS,
{
    lemma_one_bits();
    lemma_round_exact(ONE_BITS, 1 * one(), 1);
}

/// Patterns up to that of one have values up to one.
pub proof fn lemma_ratio_at_most_one(bits: u32)
    requires
        bits <= ONE_BITS,
    ensures
        units(bits) <= one(),
        is_finite(bits),
{
    lemma_one_bits();
    lemma_units_compare(bits, ONE_BITS);
}

/// Only the pattern zero has the value zero.
pub proof fn lemma_units_zero(bits: u32)
    requires
        is_finite(bits),
    ensures
        units(bits) == 0 <==> bits == 0,
{
    assert(units(0) == 0) by {
        assert(0 * pow2(0) == 0);
    }
    lemma_units_compare(0, bits);
}

/// A share of an integer is in range.
pub proof fn lemma_share_in_range(a: nat, n: nat)
    requires
        a <= one(),
        n <= 0x2_0000_0000,
    ensures
        in_range(a * (n * one()), one()),
{
    lemma_integer_in_range(n);
    let limit = pow2(250);
    let b = n * one();
    assert(a * b <= limit * one()) by (nonlinear_arith)
        requires
            a <= one(),
            b <= limit,
    ;
    lemma_one_bits();
    lemma_small_in_range(a * b, one());
}

/// The ratio of a level is a rounded quotient, at most one, and zero for the
/// level zero alone.
pub proof fn lemma_level_ratio_rounds(level: u8)
    ensures
        units(from_integer(255)) == 255 * one(),
        units(from_integer(level as nat)) == level * one(),
        units(from_integer(255)) > 0,
        in_range(units(from_integer(level as nat)) * one(), units(from_integer(255))),
        level_ratio(level) <= ONE_BITS,
{
    lemma_one_bits();
    lemma_integer_exact(255);
    lemma_integer_exact(level as nat);
    let den = units(from_integer(255));
    let num = units(from_integer(level as nat)) * one();
    let limit = pow2(250);
    assert(num <= one() * den) by (nonlinear_arith)
        requires
            num == (level * one()) * one(),
            den == 255 * one(),
            level <= 255,
    ;
    lemma_integer_in_range(1);
    assert(one() * den <= limit * den) by (nonlinear_arith)
        requires
            one() <= limit,
    ;
    lemma_small_in_range(num, den);
    lemma_in_range_rounds(num, den);
    lemma_round_exact(ONE_BITS, one() * den, den);
    lemma_rounding_monotone(level_ratio(level), ONE_BITS, num, one() * den, den);
}

/// Only the level zero has the ratio zero.
pub proof fn law_only_level_zero_is_dark(level: u8)
    ensures
        level_ratio(level) == 0 <==> level == 0,
{
    law_level_survives_ratio(level);
    law_level_survives_ratio(0);
    law_level_survives_ratio(1);
    lemma_level_ratio_rounds(0);
    let den = units(from_integer(255));
    assert(units(0) == 0) by {
        assert(0 * pow2(0) == 0);
    }
    lemma_one_bits();
    assert((0 * one()) * one() == 0 * den);
    lemma_round_exact(0, 0 * den, den);
}

/// A higher level has a higher ratio.
pub proof fn law_level_ratio_is_monotone(level_a: u8, level_b: u8)
    requires
        level_a < level_b,
    ensures
        level_ratio(level_a) < level_ratio(level_b),
{
    lemma_level_ratio_rounds(level_a);
    lemma_level_ratio_rounds(level_b);
    let den = units(from_integer(255));
    let num_a = units(from_integer(level_a as nat)) * one();
    let num_b = units(from_integer(level_b as nat)) * one();
    assert(num_a <= num_b) by (nonlinear_arith)
        requires
            num_a == (level_a * one()) * one(),
            num_b == (level_b * one()) * one(),
            level_a <= level_b,
    ;
    lemma_in_range_rounds(num_a, den);
    lemma_in_range_rounds(num_b, den);
    lemma_rounding_monotone(level_ratio(level_a), level_ratio(level_b), num_a, num_b, den);
    law_level_survives_ratio(level_a);
    law_level_survives_ratio(level_b);
}

/// The ratio of a level is the number nearest to its share of 255.
pub proof fn law_level_ratio_is_its_share(level: u8, r: u32)
    requires
        rounds_to(r, level as nat * one(), 255),
    ensures
        level_ratio(level) == r,
{
    lemma_one_bits();
    lemma_level_ratio_rounds(level);
    lemma_rounds_to_scaled(r, level as nat * one(), 255, one());
    lemma_nearest(r, (level as nat * one()) * one(), 255 * one());
}

/// The ratio of a level is its share of 255, to one part in two to the power of
/// 23.
pub proof fn law_level_ratio_is_accurate(level: u8)
    ensures
        8388608 * abs(255 * units(level_ratio(level)) - level * one()) <= level * one(),
{
    let den: nat = 255 * one();
    let num: nat = (level as nat * one()) * one();
    let u = units(level_ratio(level));
    lemma_one_bits();
    lemma_level_ratio_rounds(level);
    lemma_in_range_rounds(num, den);
    lemma_integer_in_range(1);
    assert(num <= pow2(250) * den) by (nonlinear_arith)
        requires
            num == (level * one()) * one(),
            den == 255 * one(),
            level <= 255,
            one() <= pow2(250),
    ;
    law_rounding_error_is_small(level_ratio(level), num, den);
    let gap = 255 * u - level * one();
    assert(u * den - num == gap * one()) by (nonlinear_arith)
        requires
            den == 255 * one(),
            num == (level * one()) * one(),
            gap == 255 * u - level * one(),
    ;
    assert(abs(gap * one()) == abs(gap) * one()) by (nonlinear_arith)
        requires
            one() > 0,
    ;
    let w = abs(gap);
    assert(16777216 * w <= level * one() + 8388608 * 255) by (nonlinear_arith)
        requires
            16777216 * (w * one()) <= (level * one()) * one() + 8388608 * (255 * one()),
            one() > 0,
    ;
    if level == 0 {
        law_only_level_zero_is_dark(0);
        lemma_units_zero(0);
    } else {
        vstd::arithmetic::power2::lemma2_to64();
        lemma_pow2_adds(32, 117);
        lemma_pow2_pos(117);
        assert(level * one() >= one()) by (nonlinear_arith)
            requires
                level >= 1,
        ;
    }
}

/// The level of a ratio is the integer part of the number that 255 times the
/// ratio rounds to.
pub proof fn law_ratio_level_drops_the_fraction(ratio: u32, p: u32)
    requires
        ratio <= 0x3f80_0000,
        rounds_to(p, 255 * units(ratio), 1),
    ensures
        ratio_level(ratio) * one() <= units(p) < (ratio_level(ratio) + 1) * one(),
{
    let top = from_integer(255);
    lemma_one_bits();
    lemma_integer_exact(255);
    lemma_ratio_at_most_one(ratio);
    lemma_rounds_to_scaled(p, 255 * units(ratio), 1, one());
    assert((255 * units(ratio)) * one() == units(ratio) * (255 * one())) by (nonlinear_arith);
    lemma_nearest(p, units(ratio) * units(top), one());
    lemma_round_exact(top, 255 * one(), 1);
    lemma_rounding_monotone(p, top, 255 * units(ratio), 255 * one(), 1);
    lemma_units_compare(p, top);
    law_whole_part_drops_the_fraction(p);
    let w = whole_part(p);
    assert(w <= 255) by (nonlinear_arith)
        requires
            w * one() <= 255 * one(),
            one() > 0,
    ;
}

/// The full ratio is the number one.
pub proof fn law_full_ratio_is_one()
    ensures
        units(ONE_BITS) == one(),
        ONE_BITS == 0x3f80_0000,
{
    lemma_one_bits();
}

}
