//! The brightness that a level of the light and the ambient light give.

use vstd::arithmetic::power2::{
    lemma_pow2_adds, lemma_pow2_pos, lemma_pow2_strictly_increases, pow2,
};
use vstd::math::abs;
use vstd::prelude::*;

use crate::binary32::{
    from_integer, lemma_integer_in_range, lemma_units_compare, product_of, sum_of, whole_part,
    Binary32,
};
use crate::float::{
    at_most_zero, float_product, float_sum, integer_part, is_infinite, is_nan, is_negative,
    law_integer_part_drops_the_fraction, magnitude, smaller, value, Float, NAN_BITS,
};
use crate::ratio::{
    lemma_integer_exact, lemma_one_bits, lemma_ratio_at_most_one, lemma_share_in_range,
    lemma_units_zero, lemma_whole_integer, ONE_BITS,
};
use crate::rounding::{
    in_range, is_finite, law_rounding_error_is_small, lemma_in_range_rounds, lemma_largest,
    lemma_nearest, lemma_representable, lemma_round_exact, lemma_rounding_monotone, one, rounded,
    rounds_to, units, INFINITY_BITS,
};

verus! {

/// The lowest brightness of a light that is on.
pub const MIN_BRIGHTNESS: u32 = 5;

/// What the two ratios give of the range above the lowest brightness, on top
/// of it.
pub open spec fn unclamped_brightness(matter: u32, ambient: u32, max: u32) -> u32 {
    float_sum(
        from_integer(MIN_BRIGHTNESS as nat),
        float_product(
            float_product(matter, ambient),
            from_integer((max - MIN_BRIGHTNESS) as nat),
        ),
    )
}

/// The scaled brightness, clamped to the lowest and the highest brightness, or
/// zero where the light's own ratio is not above zero.
pub open spec fn scaled_brightness(matter: u32, ambient: u32, max: u32) -> u32 {
    let low = from_integer(MIN_BRIGHTNESS as nat);
    let high = from_integer(max as nat);
    let raw = unclamped_brightness(matter, ambient, max);
    if at_most_zero(matter) {
        0
    } else if smaller(raw, low) {
        low
    } else if smaller(high, raw) {
        high
    } else {
        raw
    }
}

/// The integer that a number is written to the backlight as.
pub open spec fn backlight_value(brightness: u32) -> u32 {
    integer_part(brightness)
}

/// What two ratios between zero and one give on top of the lowest brightness.
pub open spec fn brightness_of_shares(matter: u32, ambient: u32, max: u32) -> u32 {
    sum_of(
        from_integer(MIN_BRIGHTNESS as nat),
        product_of(product_of(matter, ambient), from_integer((max - MIN_BRIGHTNESS) as nat)),
    )
}

/// An integer rounds to a number that is at most two to the power of 32.
proof fn lemma_from_integer(n: nat)
    requires
        n <= 0x1_0000_0000,
    ensures
        rounds_to(from_integer(n), n * one(), 1),
        is_finite(from_integer(n)),
        units(from_integer(n)) <= 0x1_0000_0000 * one(),
{
    lemma_integer_in_range(n);
    lemma_in_range_rounds(n * one(), 1);
    let top = lemma_representable(0x80_0000, 158);
    lemma_pow2_adds(9, 149);
    vstd::arithmetic::power2::lemma2_to64();
    assert(0x80_0000 * (512 * one()) == 0x1_0000_0000 * one());
    let limit = 0x1_0000_0000 * one();
    lemma_round_exact(top, limit, 1);
    assert(n * one() <= limit) by (nonlinear_arith)
        requires
            n <= 0x1_0000_0000,
            limit == 0x1_0000_0000 * one(),
    ;
    lemma_rounding_monotone(from_integer(n), top, n * one(), limit, 1);
    lemma_units_compare(from_integer(n), top);
}

/// Rounded integers are ordered as the integers are.
pub proof fn lemma_from_integer_ordered(a: nat, b: nat)
    requires
        a <= b <= 0x1_0000_0000,
    ensures
        from_integer(a) <= from_integer(b),
{
    lemma_from_integer(a);
    lemma_from_integer(b);
    assert(a * one() <= b * one()) by (nonlinear_arith)
        requires
            a <= b,
    ;
    lemma_rounding_monotone(from_integer(a), from_integer(b), a * one(), b * one(), 1);
}

/// A ratio of a number is at most that number, and all of it where the ratio
/// is one.
pub proof fn lemma_share(ratio: u32, number: u32)
    requires
        ratio <= ONE_BITS,
        is_finite(number),
        units(number) <= 0x1_0000_0000 * one(),
    ensures
        in_range(units(ratio) * units(number), one()),
        rounds_to(product_of(ratio, number), units(ratio) * units(number), one()),
        product_of(ratio, number) <= number,
        ratio == ONE_BITS ==> product_of(ratio, number) == number,
        ratio == 0 ==> product_of(ratio, number) == 0,
{
    lemma_one_bits();
    lemma_ratio_at_most_one(ratio);
    lemma_share_in_range(units(ratio), 0x1_0000_0000);
    let num = units(ratio) * units(number);
    let all = units(number) * one();
    assert(num <= all && num <= units(ratio) * (0x1_0000_0000 * one())) by (nonlinear_arith)
        requires
            num == units(ratio) * units(number),
            all == units(number) * one(),
            units(ratio) <= one(),
            units(number) <= 0x1_0000_0000 * one(),
    ;
    lemma_in_range_rounds(num, one());
    lemma_round_exact(number, all, one());
    lemma_rounding_monotone(product_of(ratio, number), number, num, all, one());
    if ratio == ONE_BITS {
        assert(num == all) by (nonlinear_arith)
            requires
                num == units(ratio) * units(number),
                all == units(number) * one(),
                units(ratio) == one(),
        ;
    }
    if ratio == 0 {
        lemma_units_zero(0);
        assert(0 * units(number) == 0 * one());
        lemma_round_exact(0, num, one());
    }
}

/// The steps of the scaling are all in range.
pub proof fn lemma_brightness_steps(matter: u32, ambient: u32, max: u32)
    requires
        matter <= ONE_BITS,
        ambient <= ONE_BITS,
        max >= MIN_BRIGHTNESS,
    ensures
        in_range(units(matter) * units(ambient), one()),
        product_of(matter, ambient) <= ONE_BITS,
        ({
            let range = from_integer((max - MIN_BRIGHTNESS) as nat);
            let ratio = product_of(matter, ambient);
            let above = product_of(ratio, range);
            let low = from_integer(MIN_BRIGHTNESS as nat);
            &&& is_finite(range)
            &&& in_range(units(ratio) * units(range), one())
            &&& rounds_to(above, units(ratio) * units(range), one())
            &&& in_range(units(low) + units(above), 1)
            &&& rounds_to(
                brightness_of_shares(matter, ambient, max),
                units(low) + units(above),
                1,
            )
            &&& units(low) == MIN_BRIGHTNESS * one()
        }),
        unclamped_brightness(matter, ambient, max) == brightness_of_shares(matter, ambient, max),
        is_finite(unclamped_brightness(matter, ambient, max)),
{
    let range = from_integer((max - MIN_BRIGHTNESS) as nat);
    let ratio = product_of(matter, ambient);
    let above = product_of(ratio, range);
    let low = from_integer(MIN_BRIGHTNESS as nat);
    lemma_one_bits();
    lemma_ratio_at_most_one(ambient);
    lemma_share(matter, ambient);
    lemma_from_integer((max - MIN_BRIGHTNESS) as nat);
    lemma_share(ratio, range);
    lemma_units_compare(above, range);
    lemma_integer_exact(MIN_BRIGHTNESS as nat);
    lemma_integer_in_range(0x2_0000_0000);
    lemma_in_range_rounds(units(low) + units(above), 1);
    lemma_in_range_rounds(units(matter) * units(ambient), one());
    lemma_in_range_rounds(units(ratio) * units(range), one());
    assert(float_product(matter, ambient) == ratio);
    assert(float_product(ratio, range) == above);
    assert(MIN_BRIGHTNESS * one() > 0) by (nonlinear_arith)
        requires
            one() > 0,
    ;
}

/// A share that is negative leaves at most the lowest brightness, to which
/// what is less is raised.
proof fn lemma_negative_share(share: u32, max: u32)
    requires
        max >= MIN_BRIGHTNESS,
        is_negative(share),
        !is_nan(share),
    ensures
        ({
            let low = from_integer(MIN_BRIGHTNESS as nat);
            let raw = float_sum(low, share);
            &&& smaller(raw, low) || raw == low
            &&& !smaller(from_integer(max as nat), low)
        }),
{
    let low = from_integer(MIN_BRIGHTNESS as nat);
    let exact = value(low) + value(share);
    lemma_one_bits();
    lemma_integer_exact(MIN_BRIGHTNESS as nat);
    lemma_from_integer_ordered(MIN_BRIGHTNESS as nat, max as nat);
    lemma_from_integer(max as nat);
    lemma_units_zero(low);
    assert(MIN_BRIGHTNESS * one() > 0) by (nonlinear_arith)
        requires
            one() > 0,
    ;
    if !is_infinite(share) {
        if exact > 0 {
            lemma_integer_in_range(MIN_BRIGHTNESS as nat);
            lemma_in_range_rounds(exact as nat, 1);
            lemma_round_exact(low, units(low), 1);
            lemma_rounding_monotone(rounded(exact as nat, 1), low, exact as nat, units(low), 1);
        } else if exact < 0 {
            if in_range((-exact) as nat, 1) {
                lemma_in_range_rounds((-exact) as nat, 1);
            }
        }
    }
}

/// The sum with a share that is not negative is that of two finite numbers,
/// or infinite.
proof fn lemma_positive_share(share: u32)
    requires
        share <= INFINITY_BITS,
    ensures
        ({
            let low = from_integer(MIN_BRIGHTNESS as nat);
            let raw = float_sum(low, share);
            &&& is_finite(low)
            &&& is_finite(share) ==> in_range(units(low) + units(share), 1) && raw == sum_of(
                low,
                share,
            ) && is_finite(raw)
            &&& share == INFINITY_BITS ==> raw == INFINITY_BITS
        }),
{
    let low = from_integer(MIN_BRIGHTNESS as nat);
    lemma_one_bits();
    lemma_integer_exact(MIN_BRIGHTNESS as nat);
    assert(MIN_BRIGHTNESS * one() > 0) by (nonlinear_arith)
        requires
            one() > 0,
    ;
    if is_finite(share) {
        lemma_largest();
        lemma_units_compare(share, (INFINITY_BITS - 1) as u32);
        lemma_pow2_adds(4, 149);
        vstd::arithmetic::power2::lemma2_to64();
        lemma_pow2_strictly_increases(153, 253);
        assert(16 * one() < pow2(253));
        lemma_in_range_rounds(units(low) + units(share), 1);
    }
}

/// Scales the range between the lowest and the highest brightness by the
/// light's own ratio and that of the ambient light.
pub fn scale_brightness(matter: Float, ambient: Float, max: u32) -> (r: Float)
    requires
        !at_most_zero(matter@) ==> max >= MIN_BRIGHTNESS,
    ensures
        r@ == scaled_brightness(matter@, ambient@, max),
{
    if matter.is_at_most_zero() {
        return Float::from_number(Binary32::zero());
    }
    let low = Binary32::from_u32(MIN_BRIGHTNESS);
    let high = Binary32::from_u32(max);
    let range = Binary32::from_u32(max - MIN_BRIGHTNESS);
    let share = matter.times(ambient).times(Float::from_number(range));
    if share.is_nan() {
        return Float::nan();
    }
    if share.is_negative() {
        proof {
            lemma_negative_share(share@, max);
        }
        return Float::from_number(low);
    }
    proof {
        lemma_positive_share(share@);
        lemma_from_integer(max as nat);
    }
    match share.number() {
        Some(share) => {
            let raw = low.plus(share);
            if raw.less_than(low) {
                Float::from_number(low)
            } else if high.less_than(raw) {
                Float::from_number(high)
            } else {
                Float::from_number(raw)
            }
        },
        None => Float::from_number(high),
    }
}

/// Whatever the two ratios are, a light whose own ratio is at most zero is
/// dark; every other one is, as a number, at least as bright as the lowest
/// brightness and at most as bright as the highest, or not a number where the
/// product of its ratios and the range is none.
pub proof fn law_brightness_within_limits(matter: u32, ambient: u32, max: u32)
    requires
        max >= MIN_BRIGHTNESS,
    ensures
        ({
            let brightness = scaled_brightness(matter, ambient, max);
            let share = float_product(
                float_product(matter, ambient),
                from_integer((max - MIN_BRIGHTNESS) as nat),
            );
            &&& at_most_zero(matter) ==> brightness == 0
            &&& !at_most_zero(matter) && is_nan(share) ==> brightness == NAN_BITS
            &&& !at_most_zero(matter) && !is_nan(share) ==> from_integer(MIN_BRIGHTNESS as nat)
                <= brightness <= from_integer(max as nat)
        }),
{
    let share = float_product(
        float_product(matter, ambient),
        from_integer((max - MIN_BRIGHTNESS) as nat),
    );
    lemma_from_integer_ordered(MIN_BRIGHTNESS as nat, max as nat);
    lemma_from_integer(max as nat);
    if !is_nan(share) {
        if is_negative(share) {
            lemma_negative_share(share, max);
        } else {
            lemma_positive_share(share);
        }
    }
}

/// What is written to the backlight is zero for a ratio of zero, else at least
/// the lowest brightness; it is at most the highest, save where the highest is
/// no number and the number nearest to it is larger.
pub proof fn law_written_value_within_limits(matter: u32, ambient: u32, max: u32)
    requires
        matter <= ONE_BITS,
        ambient <= ONE_BITS,
        max >= MIN_BRIGHTNESS,
    ensures
        ({
            let written = backlight_value(scaled_brightness(matter, ambient, max));
            &&& written == 0 <==> matter == 0
            &&& matter != 0 ==> written >= MIN_BRIGHTNESS
            &&& written <= max || units(from_integer(max as nat)) > max * one()
        }),
{
    let brightness = scaled_brightness(matter, ambient, max);
    let low = from_integer(MIN_BRIGHTNESS as nat);
    let high = from_integer(max as nat);
    law_brightness_within_limits(matter, ambient, max);
    lemma_brightness_steps(matter, ambient, max);
    lemma_from_integer(max as nat);
    lemma_integer_exact(MIN_BRIGHTNESS as nat);
    lemma_one_bits();
    lemma_whole_integer(MIN_BRIGHTNESS as nat);
    lemma_whole_integer(max as nat);
    lemma_whole_integer(0);
    lemma_units_zero(0);
    if matter == 0 {
        assert(whole_part(0) == 0);
    } else {
        lemma_units_compare(low, brightness);
        lemma_units_compare(brightness, high);
        vstd::arithmetic::div_mod::lemma_div_is_ordered(
            units(low) as int,
            units(brightness) as int,
            one() as int,
        );
        vstd::arithmetic::div_mod::lemma_div_is_ordered(
            units(brightness) as int,
            units(high) as int,
            one() as int,
        );
        if units(high) <= max * one() {
            vstd::arithmetic::div_mod::lemma_div_is_ordered(
                units(high) as int,
                (max * one()) as int,
                one() as int,
            );
        }
    }
}

/// The number zero is written as zero.
pub proof fn lemma_zero_is_dark()
    ensures
        backlight_value(0) == 0,
{
    lemma_one_bits();
    lemma_units_zero(0);
    lemma_whole_integer(0);
}

/// A higher ratio of the light or of the ambient light never dims the light,
/// also beyond one, as long as the brightness is a number.
pub proof fn law_brightness_monotone(
    matter_a: u32,
    matter_b: u32,
    ambient_a: u32,
    ambient_b: u32,
    max: u32,
)
    requires
        matter_a <= matter_b <= INFINITY_BITS,
        ambient_a <= ambient_b <= INFINITY_BITS,
        max >= MIN_BRIGHTNESS,
        !is_nan(scaled_brightness(matter_a, ambient_a, max)),
        !is_nan(scaled_brightness(matter_b, ambient_b, max)),
    ensures
        scaled_brightness(matter_a, ambient_a, max) <= scaled_brightness(matter_b, ambient_b, max),
        backlight_value(scaled_brightness(matter_a, ambient_a, max)) <= backlight_value(
            scaled_brightness(matter_b, ambient_b, max),
        ),
{
    let range = from_integer((max - MIN_BRIGHTNESS) as nat);
    let a = scaled_brightness(matter_a, ambient_a, max);
    let b = scaled_brightness(matter_b, ambient_b, max);
    lemma_from_integer((max - MIN_BRIGHTNESS) as nat);
    lemma_from_integer_ordered(MIN_BRIGHTNESS as nat, max as nat);
    lemma_from_integer(max as nat);
    lemma_one_bits();
    law_brightness_within_limits(matter_a, ambient_a, max);
    law_brightness_within_limits(matter_b, ambient_b, max);
    if matter_a != 0 {
        let ratio_a = float_product(matter_a, ambient_a);
        let ratio_b = float_product(matter_b, ambient_b);
        lemma_float_product_monotone(matter_a, matter_b, ambient_a, ambient_b);
        lemma_float_product_monotone(ratio_a, ratio_b, range, range);
        lemma_share_monotone(float_product(ratio_a, range), float_product(ratio_b, range));
    }
    lemma_units_compare(a, b);
    vstd::arithmetic::div_mod::lemma_div_is_ordered(
        units(a) as int,
        units(b) as int,
        one() as int,
    );
}

/// A negative ratio of the ambient light leaves the lowest brightness, and
/// ratios from one on give no less than full ratios, as long as the brightness
/// is a number. Where the highest brightness has at most 24 bits, it is what
/// they give.
pub proof fn law_ratios_beyond_limits_are_clamped(matter: u32, ambient: u32, max: u32)
    requires
        max >= MIN_BRIGHTNESS,
        !at_most_zero(matter),
        !is_nan(scaled_brightness(matter, ambient, max)),
    ensures
        is_negative(ambient) ==> scaled_brightness(matter, ambient, max) == from_integer(
            MIN_BRIGHTNESS as nat,
        ),
        !is_negative(ambient) && matter >= ONE_BITS && ambient >= ONE_BITS ==> {
            &&& scaled_brightness(matter, ambient, max) >= scaled_brightness(
                ONE_BITS,
                ONE_BITS,
                max,
            )
            &&& max <= 0x100_0000 ==> scaled_brightness(matter, ambient, max) == from_integer(
                max as nat,
            )
        },
{
    let range = from_integer((max - MIN_BRIGHTNESS) as nat);
    let ratio = float_product(matter, ambient);
    let share = float_product(ratio, range);
    lemma_one_bits();
    lemma_from_integer((max - MIN_BRIGHTNESS) as nat);
    law_brightness_within_limits(matter, ambient, max);
    if is_negative(ambient) {
        lemma_rounded_monotone(0, units(magnitude(matter)) * units(magnitude(ambient)), one());
        lemma_rounded_monotone(0, units(magnitude(ratio)) * units(range), one());
        lemma_negative_share(share, max);
    } else if matter >= ONE_BITS && ambient >= ONE_BITS {
        lemma_brightness_steps(ONE_BITS, ONE_BITS, max);
        law_brightness_monotone(ONE_BITS, matter, ONE_BITS, ambient, max);
        law_full_ratios_give_highest(max);
    }
}

/// Rounding keeps the order of values, also out of range.
proof fn lemma_rounded_monotone(x: nat, y: nat, den: nat)
    requires
        den > 0,
        x <= y,
    ensures
        rounded(x, den) <= rounded(y, den) <= INFINITY_BITS,
{
    if in_range(y, den) {
        lemma_in_range_rounds(x, den);
        lemma_in_range_rounds(y, den);
        lemma_rounding_monotone(rounded(x, den), rounded(y, den), x, y, den);
    } else if in_range(x, den) {
        lemma_in_range_rounds(x, den);
    }
}

/// Products of numbers that are not negative are ordered as their factors are.
proof fn lemma_float_product_monotone(a: u32, b: u32, c: u32, d: u32)
    requires
        a <= b <= INFINITY_BITS,
        c <= d <= INFINITY_BITS,
        !is_nan(float_product(a, c)),
        !is_nan(float_product(b, d)),
    ensures
        float_product(a, c) <= float_product(b, d) <= INFINITY_BITS,
{
    lemma_one_bits();
    lemma_rounded_monotone(units(a) * units(c), units(a) * units(c), one());
    if is_finite(b) && is_finite(d) {
        lemma_units_compare(a, b);
        lemma_units_compare(c, d);
        let x = units(a) * units(c);
        let y = units(b) * units(d);
        assert(x <= y) by (nonlinear_arith)
            requires
                x == units(a) * units(c),
                y == units(b) * units(d),
                units(a) <= units(b),
                units(c) <= units(d),
        ;
        lemma_rounded_monotone(x, y, one());
    }
}

/// A larger share gives no smaller sum.
proof fn lemma_share_monotone(a: u32, b: u32)
    requires
        a <= b <= INFINITY_BITS,
    ensures
        ({
            let low = from_integer(MIN_BRIGHTNESS as nat);
            float_sum(low, a) <= float_sum(low, b) <= INFINITY_BITS
        }),
{
    let low = from_integer(MIN_BRIGHTNESS as nat);
    lemma_positive_share(a);
    lemma_positive_share(b);
    if is_finite(b) {
        lemma_units_compare(a, b);
        lemma_rounded_monotone(units(low) + units(a), units(low) + units(b), 1);
    }
}

/// Rounded products are ordered as their factors are.
pub proof fn lemma_product_monotone(a: u32, b: u32, c: u32, d: u32)
    requires
        a <= b,
        c <= d,
        is_finite(b),
        is_finite(d),
        rounds_to(product_of(a, c), units(a) * units(c), one()),
        rounds_to(product_of(b, d), units(b) * units(d), one()),
    ensures
        product_of(a, c) <= product_of(b, d),
{
    lemma_units_compare(a, b);
    lemma_units_compare(c, d);
    lemma_one_bits();
    let x = units(a) * units(c);
    let y = units(b) * units(d);
    assert(x <= y) by (nonlinear_arith)
        requires
            x == units(a) * units(c),
            y == units(b) * units(d),
            units(a) <= units(b),
            units(c) <= units(d),
    ;
    lemma_rounding_monotone(product_of(a, c), product_of(b, d), x, y, one());
}

/// With both ratios full the light has the whole range on top of the lowest
/// brightness, up to the highest: where that has at most 24 bits, exactly the
/// highest.
pub proof fn law_full_ratios_give_highest(max: u32)
    requires
        max >= MIN_BRIGHTNESS,
    ensures
        ({
            let high = from_integer(max as nat);
            let raw = sum_of(
                from_integer(MIN_BRIGHTNESS as nat),
                from_integer((max - MIN_BRIGHTNESS) as nat),
            );
            let brightness = scaled_brightness(ONE_BITS, ONE_BITS, max);
            &&& brightness == (if raw <= high { raw } else { high })
            &&& max <= 0x100_0000 ==> brightness == high && backlight_value(brightness) == max
        }),
{
    let range = from_integer((max - MIN_BRIGHTNESS) as nat);
    let low = from_integer(MIN_BRIGHTNESS as nat);
    let high = from_integer(max as nat);
    let raw = sum_of(low, range);
    lemma_one_bits();
    lemma_from_integer((max - MIN_BRIGHTNESS) as nat);
    lemma_integer_exact(MIN_BRIGHTNESS as nat);
    lemma_share(ONE_BITS, ONE_BITS);
    lemma_share(ONE_BITS, range);
    lemma_from_integer_ordered(MIN_BRIGHTNESS as nat, max as nat);
    lemma_brightness_steps(ONE_BITS, ONE_BITS, max);
    lemma_from_integer(max as nat);
    lemma_round_exact(low, units(low), 1);
    lemma_rounding_monotone(low, raw, units(low), units(low) + units(range), 1);
    if max <= 0x100_0000 {
        lemma_integer_exact((max - MIN_BRIGHTNESS) as nat);
        lemma_integer_exact(max as nat);
        assert(MIN_BRIGHTNESS * one() + (max - MIN_BRIGHTNESS) * one() == max * one())
            by (nonlinear_arith);
        lemma_round_exact(high, units(low) + units(range), 1);
        lemma_whole_integer(max as nat);
    }
}

/// In the dark a light that is not off has the lowest brightness.
pub proof fn law_no_ambient_light_gives_lowest(matter: u32, max: u32)
    requires
        0 < matter <= ONE_BITS,
        max >= MIN_BRIGHTNESS,
    ensures
        backlight_value(scaled_brightness(matter, 0, max)) == MIN_BRIGHTNESS,
{
    let range = from_integer((max - MIN_BRIGHTNESS) as nat);
    let low = from_integer(MIN_BRIGHTNESS as nat);
    lemma_one_bits();
    lemma_units_zero(0);
    lemma_brightness_steps(matter, 0, max);
    lemma_from_integer((max - MIN_BRIGHTNESS) as nat);
    assert(product_of(matter, 0) == 0) by {
        assert(units(matter) * 0 == 0 * one());
        lemma_round_exact(0, units(matter) * units(0), one());
    }
    lemma_share(0, range);
    lemma_integer_exact(MIN_BRIGHTNESS as nat);
    lemma_round_exact(low, units(low) + 0, 1);
    lemma_from_integer(max as nat);
    lemma_from_integer_ordered(MIN_BRIGHTNESS as nat, max as nat);
    lemma_whole_integer(MIN_BRIGHTNESS as nat);
}

/// The brightness is the lowest one plus the ratios' share of the range above
/// it, each step of `5 + matter * ambient * (max - 5)` rounded on its own, and
/// cut off at the highest: `p`, `range`, `q` and `s` are what the steps round
/// to, and `high` is what the highest brightness rounds to.
pub proof fn law_brightness_follows_the_formula(
    matter: u32,
    ambient: u32,
    max: u32,
    p: u32,
    range: u32,
    q: u32,
    s: u32,
    high: u32,
)
    requires
        0 < matter < 0x7f80_0000,
        ambient < 0x7f80_0000,
        max >= 5,
        rounds_to(p, units(matter) * units(ambient), one()),
        rounds_to(range, (max - 5) as nat * one(), 1),
        rounds_to(q, units(p) * units(range), one()),
        rounds_to(s, 5 * one() + units(q), 1),
        rounds_to(high, max as nat * one(), 1),
        (matter <= 0x3f80_0000 && ambient <= 0x3f80_0000) || (in_range(
            units(matter) * units(ambient),
            one(),
        ) && in_range(units(p) * units(range), one())),
    ensures
        scaled_brightness(matter, ambient, max) == (if units(s) <= units(high) {
            s
        } else {
            high
        }),
{
    let low = from_integer(5);
    lemma_one_bits();
    lemma_nearest(p, units(matter) * units(ambient), one());
    lemma_nearest(range, (max - 5) as nat * one(), 1);
    lemma_nearest(q, units(p) * units(range), one());
    lemma_nearest(s, 5 * one() + units(q), 1);
    lemma_nearest(high, max as nat * one(), 1);
    if matter <= ONE_BITS && ambient <= ONE_BITS {
        lemma_brightness_steps(matter, ambient, max);
    }
    lemma_integer_exact(5);
    lemma_positive_share(q);
    lemma_round_exact(low, units(low), 1);
    lemma_rounding_monotone(low, s, units(low), 5 * one() + units(q), 1);
    lemma_units_compare(s, high);
}

/// A bound is scaled along with what it bounds.
pub proof fn lemma_bound_times(y: int, bound: int, factor: int)
    by (nonlinear_arith)
    requires
        -bound <= y <= bound,
        factor >= 0,
    ensures
        -(bound * factor) <= y * factor <= bound * factor,
{
}

/// How far the errors of the steps add up.
proof fn lemma_formula_error(
    u: int,
    max: int,
    matter: int,
    ambient: int,
    p: int,
    range: int,
    q: int,
    s: int,
)
    requires
        u >= 8388608,
        max >= 5,
        0 <= matter <= u,
        0 <= ambient <= u,
        0 <= p <= u,
        0 <= q <= range,
        16777216 * abs(p * u - matter * ambient) <= matter * ambient + 8388608 * u,
        16777216 * abs(range - (max - 5) * u) <= (max - 5) * u + 8388608,
        16777216 * abs(q * u - p * range) <= p * range + 8388608 * u,
        16777216 * abs(s - (5 * u + q)) <= 5 * u + q + 8388608,
    ensures
        16777216 * abs(s * u - (5 * u * u + matter * ambient * (max - 5))) <= 7 * (max * u * u),
{
    let m = max - 5;
    let k = max * u;
    let d1 = 16777216 * (p * u - matter * ambient);
    let d2 = 16777216 * (range - m * u);
    let d3 = 16777216 * (q * u - p * range);
    let d4 = 16777216 * (s - (5 * u + q));
    assert(m * u + 5 * u == k) by (nonlinear_arith)
        requires
            m == max - 5,
            k == max * u,
    ;
    assert(0 <= m * u) by (nonlinear_arith)
        requires
            m >= 0,
            u >= 0,
    ;
    assert(0 <= matter * ambient <= u * u) by (nonlinear_arith)
        requires
            0 <= matter <= u,
            0 <= ambient <= u,
    ;
    assert(8388608 * u <= u * u) by (nonlinear_arith)
        requires
            u >= 8388608,
    ;
    assert(-k <= d2 <= k);
    assert(range + u <= 2 * k);
    assert(0 <= p * range <= u * range) by (nonlinear_arith)
        requires
            0 <= p <= u,
            0 <= range,
    ;
    assert(u * range + u * u <= 2 * (k * u)) by (nonlinear_arith)
        requires
            range + u <= 2 * k,
            u >= 0,
    ;
    assert(-(2 * (k * u)) <= d3 <= 2 * (k * u));
    assert(-(2 * k) <= d4 <= 2 * k);
    assert(-(2 * (u * u)) <= d1 <= 2 * (u * u));
    lemma_bound_times(d4, 2 * k, u);
    lemma_bound_times(d2, k, p);
    lemma_bound_times(d1, 2 * (u * u), m);
    assert(k * p <= k * u) by (nonlinear_arith)
        requires
            0 <= p <= u,
            k >= 0,
    ;
    assert((2 * (u * u)) * m <= 2 * (k * u)) by (nonlinear_arith)
        requires
            m * u <= k,
            u >= 0,
    ;
    assert((2 * k) * u == 2 * (k * u)) by (nonlinear_arith);
    assert(16777216 * (s * u - (5 * u * u + matter * ambient * m)) == d4 * u + d3 + d2 * p + d1 * m)
        by (nonlinear_arith)
        requires
            d1 == 16777216 * (p * u - matter * ambient),
            d2 == 16777216 * (range - m * u),
            d3 == 16777216 * (q * u - p * range),
            d4 == 16777216 * (s - (5 * u + q)),
    ;
    assert(max * u * u == k * u);
}

/// As exact values, the brightness is off from
/// `5 + matter * ambient * (max - 5)` by no more than one part in two to the
/// power of 21 of the highest brightness.
pub proof fn law_brightness_is_accurate(matter: u32, ambient: u32, max: u32)
    requires
        0 < matter <= 0x3f80_0000,
        ambient <= 0x3f80_0000,
        max >= 5,
    ensures
        2097152 * abs(
            units(scaled_brightness(matter, ambient, max)) * one() - (5 * one() * one() + units(
                matter,
            ) * units(ambient) * (max - 5)),
        ) <= max * one() * one(),
{
    let u = one();
    let p = product_of(matter, ambient);
    let range = from_integer((max - 5) as nat);
    let q = product_of(p, range);
    let s = sum_of(from_integer(5), q);
    let high = from_integer(max as nat);
    let b = scaled_brightness(matter, ambient, max);
    lemma_one_bits();
    lemma_brightness_steps(matter, ambient, max);
    lemma_ratio_at_most_one(ambient);
    lemma_share(matter, ambient);
    lemma_from_integer((max - 5) as nat);
    lemma_from_integer(max as nat);
    lemma_share(p, range);
    lemma_integer_exact(5);
    lemma_ratio_at_most_one(matter);
    lemma_ratio_at_most_one(p);
    lemma_units_compare(q, range);
    law_brightness_follows_the_formula(matter, ambient, max, p, range, q, s, high);
    vstd::arithmetic::power2::lemma2_to64();
    lemma_pow2_adds(32, 117);
    lemma_pow2_pos(117);
    lemma_formula_in_small_range(matter, ambient, max);
    law_rounding_error_is_small(p, units(matter) * units(ambient), u);
    law_rounding_error_is_small(range, (max - 5) as nat * u, 1);
    law_rounding_error_is_small(q, units(p) * units(range), u);
    law_rounding_error_is_small(s, 5 * u + units(q), 1);
    law_rounding_error_is_small(high, max as nat * u, 1);
    lemma_formula_error(
        u as int,
        max as int,
        units(matter) as int,
        units(ambient) as int,
        units(p) as int,
        units(range) as int,
        units(q) as int,
        units(s) as int,
    );
    let exact = 5 * u * u + units(matter) * units(ambient) * (max - 5);
    let k = max * u;
    if units(high) < units(s) {
        let h = units(high);
        let d = 16777216 * (h - k);
        assert(max * u * u == k * u);
        assert(exact <= k * u) by (nonlinear_arith)
            requires
                exact == 5 * u * u + units(matter) * units(ambient) * (max - 5),
                units(matter) <= u,
                units(ambient) <= u,
                k == max * u,
                max >= 5,
        ;
        assert(k >= u) by (nonlinear_arith)
            requires
                k == max * u,
                max >= 5,
        ;
        assert(-(2 * k) <= d);
        assert(16777216 * (h * u - k * u) >= -(2 * (k * u))) by (nonlinear_arith)
            requires
                -(2 * k) <= 16777216 * (h - k),
                u >= 0,
        ;
        assert(h * u <= units(s) * u) by (nonlinear_arith)
            requires
                h < units(s),
        ;
    }
    assert(max * u * u >= 0) by (nonlinear_arith);
}

/// The values that the steps of the formula round are small.
proof fn lemma_formula_in_small_range(matter: u32, ambient: u32, max: u32)
    requires
        matter <= ONE_BITS,
        ambient <= ONE_BITS,
        max >= MIN_BRIGHTNESS,
    ensures
        ({
            let p = product_of(matter, ambient);
            let range = from_integer((max - MIN_BRIGHTNESS) as nat);
            let q = product_of(p, range);
            &&& units(matter) * units(ambient) <= pow2(250) * one()
            &&& (max - MIN_BRIGHTNESS) * one() <= pow2(250) * 1
            &&& units(p) * units(range) <= pow2(250) * one()
            &&& 5 * one() + units(q) <= pow2(250) * 1
            &&& max * one() <= pow2(250) * 1
        }),
{
    let p = product_of(matter, ambient);
    let range = from_integer((max - MIN_BRIGHTNESS) as nat);
    lemma_brightness_steps(matter, ambient, max);
    lemma_ratio_at_most_one(matter);
    lemma_ratio_at_most_one(ambient);
    lemma_ratio_at_most_one(p);
    lemma_from_integer((max - MIN_BRIGHTNESS) as nat);
    lemma_share(p, range);
    lemma_units_compare(product_of(p, range), range);
    lemma_integer_in_range(0x2_0000_0000);
    lemma_integer_in_range(max as nat);
    lemma_integer_in_range((max - MIN_BRIGHTNESS) as nat);
    lemma_integer_in_range(1);
    let limit = pow2(250);
    let (a, b) = (units(matter), units(ambient));
    assert(a * b <= limit * one()) by (nonlinear_arith)
        requires
            a <= one(),
            b <= one(),
            one() <= limit,
    ;
    let (c, d) = (units(p), units(range));
    assert(c * d <= limit * one()) by (nonlinear_arith)
        requires
            c <= one(),
            d <= limit,
    ;
}

/// What is written to the backlight is the exact value of
/// `5 + matter * ambient * (max - 5)` without its fraction, save for an error
/// of one part in two to the power of 21 of the highest brightness.
pub proof fn law_written_value_is_accurate(matter: u32, ambient: u32, max: u32)
    requires
        0 < matter <= 0x3f80_0000,
        ambient <= 0x3f80_0000,
        max >= 5,
    ensures
        ({
            let written = backlight_value(scaled_brightness(matter, ambient, max));
            let exact = 5 * one() * one() + units(matter) * units(ambient) * (max - 5);
            let error = max * one() * one();
            &&& 2097152 * (written * one() * one() - exact) <= error
            &&& 2097152 * (exact - (written + 1) * one() * one()) <= error
        }),
{
    let b = scaled_brightness(matter, ambient, max);
    let w = backlight_value(b);
    let u = one();
    law_brightness_is_accurate(matter, ambient, max);
    law_brightness_within_limits(matter, ambient, max);
    lemma_brightness_steps(matter, ambient, max);
    lemma_from_integer(max as nat);
    lemma_units_compare(b, from_integer(max as nat));
    law_integer_part_drops_the_fraction(b);
    assert(units(b) <= (w + 1) * u);
    assert(w * u * u <= units(b) * u) by (nonlinear_arith)
        requires
            w * u <= units(b),
    ;
    assert(units(b) * u <= (w + 1) * u * u) by (nonlinear_arith)
        requires
            units(b) <= (w + 1) * u,
    ;
}

/// What is written is the scaled brightness without its fraction.
pub proof fn law_written_value_drops_the_fraction(brightness: u32)
    requires
        brightness < 0x7f80_0000,
    ensures
        backlight_value(brightness) * one() <= units(brightness),
        backlight_value(brightness) < 0xffff_ffff ==> units(brightness) < (backlight_value(
            brightness,
        ) + 1) * one(),
{
    law_integer_part_drops_the_fraction(brightness);
}

/// The two ratios can be exchanged, as long as both are above zero.
pub proof fn law_ratios_can_be_exchanged(matter: u32, ambient: u32, max: u32)
    requires
        !at_most_zero(matter),
        !at_most_zero(ambient),
    ensures
        scaled_brightness(matter, ambient, max) == scaled_brightness(ambient, matter, max),
{
    let (a, b) = (units(magnitude(matter)), units(magnitude(ambient)));
    assert(a * b == b * a) by (nonlinear_arith);
}

/// Where the ratios' share of the range is infinite, the light has the highest
/// brightness, and where it is negative, the lowest.
pub proof fn law_share_beyond_the_range_is_cut_off(matter: u32, ambient: u32, max: u32)
    requires
        max >= 5,
        !at_most_zero(matter),
    ensures
        ({
            let share = float_product(
                float_product(matter, ambient),
                from_integer((max - 5) as nat),
            );
            &&& share == 0x7f80_0000 ==> scaled_brightness(matter, ambient, max) == from_integer(
                max as nat,
            )
            &&& 0x8000_0000 <= share <= 0xff80_0000 ==> scaled_brightness(matter, ambient, max)
                == from_integer(5)
            &&& is_nan(share) ==> is_nan(scaled_brightness(matter, ambient, max))
        }),
{
    let share = float_product(float_product(matter, ambient), from_integer((max - 5) as nat));
    lemma_from_integer(max as nat);
    if share == INFINITY_BITS {
        lemma_positive_share(share);
    } else if is_negative(share) && !is_nan(share) {
        lemma_negative_share(share, max);
    }
}

/// What is not a number and what is negative is written as zero, an infinity as
/// the largest `u32`.
pub proof fn law_written_value_of_what_is_not_finite(brightness: u32)
    ensures
        brightness == 0x7f80_0000 ==> backlight_value(brightness) == 0xffff_ffff,
        brightness > 0x7f80_0000 ==> backlight_value(brightness) == 0,
{
}

}
