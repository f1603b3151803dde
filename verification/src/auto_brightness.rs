//! Following the ambient light.

use vstd::arithmetic::power2::{lemma_pow2_adds, lemma_pow2_pos, pow2};
use vstd::math::abs;
use vstd::prelude::*;

use crate::binary32::{
    from_integer, lemma_integer_in_range, lemma_units_compare, product_of, quotient_of, sum_of,
    Binary32,
};
use crate::brightness::{
    backlight_value, lemma_product_monotone, lemma_share, scaled_brightness,
};
use crate::error::Error;
use crate::filesystem::{file_text, DryDevice, FilesystemManager};
use crate::float::at_most_zero;
use crate::ratio::{lemma_integer_exact, lemma_one_bits, Ratio, ONE_BITS};
use crate::rounding::{
    in_range, is_finite, law_rounding_error_is_small, lemma_in_range_rounds, lemma_nearest,
    lemma_representable, lemma_round_between, lemma_round_exact, lemma_rounding_monotone,
    lemma_rounds_to_scaled, lemma_small_in_range, lemma_units_at, lemma_units_next, nearest, one,
    rounds_to, units,
};
use crate::shared::{read_as, read_ratio, store_ratio, stored, SharedRatios};

verus! {

/// The reading of the ambient light sensor from which on the light is as
/// bright as its level allows.
pub const AMBIENT_LIGHT_SENSOR_MAX: u32 = 70;

/// The weight of a new reading: the number nearest to one fifth.
pub open spec fn new_weight() -> u32 {
    nearest(one(), 5)
}

/// The weight of what came before: one less the weight of a new reading.
pub open spec fn old_weight() -> u32 {
    nearest((one() - units(new_weight())) as nat, 1)
}

const NEW_WEIGHT_BITS: u32 = 0x3e4c_cccd;

const OLD_WEIGHT_BITS: u32 = 0x3f4c_cccd;

/// The pattern of two to the power of 32, which no smoothed reading exceeds.
pub const MAX_SMOOTHED_BITS: u32 = 0x4f80_0000;

/// The exponentially weighted average of a reading and what came before.
pub open spec fn smooth(sensor: u32, before: u32) -> u32 {
    sum_of(
        product_of(new_weight(), from_integer(sensor as nat)),
        product_of(old_weight(), before),
    )
}

/// The ratio of the ambient light that a smoothed reading gives.
pub open spec fn ambient_ratio(smoothed: u32) -> u32 {
    let ratio = quotient_of(smoothed, from_integer(AMBIENT_LIGHT_SENSOR_MAX as nat));
    if ratio <= ONE_BITS {
        ratio
    } else {
        ONE_BITS
    }
}

/// The patterns of the two weights.
proof fn lemma_weights()
    ensures
        new_weight() == NEW_WEIGHT_BITS,
        old_weight() == OLD_WEIGHT_BITS,
        units(NEW_WEIGHT_BITS) == 13421773 * pow2(123),
        units(OLD_WEIGHT_BITS) == 13421773 * pow2(125),
{
    let p = pow2(123);
    lemma_pow2_pos(123);
    vstd::arithmetic::power2::lemma2_to64();
    lemma_pow2_adds(26, 123);
    lemma_pow2_adds(2, 123);
    assert(one() == 67108864 * p);
    lemma_units_at(123, 13421772);
    lemma_units_at(123, 13421773);
    lemma_round_between(0x3e4c_cccc, one(), 5);
    lemma_nearest(NEW_WEIGHT_BITS, one(), 5);
    lemma_units_at(125, 13421772);
    lemma_units_at(125, 13421773);
    let num = (one() - units(NEW_WEIGHT_BITS)) as nat;
    lemma_round_between(0x3f4c_cccc, num, 1);
    lemma_nearest(OLD_WEIGHT_BITS, num, 1);
}

/// Smoothing stays in range and below the bound.
proof fn lemma_smooth_steps(sensor: u32, before: u32)
    requires
        before <= MAX_SMOOTHED_BITS,
    ensures
        ({
            let fresh = product_of(NEW_WEIGHT_BITS, from_integer(sensor as nat));
            let kept = product_of(OLD_WEIGHT_BITS, before);
            &&& in_range(units(NEW_WEIGHT_BITS) * units(from_integer(sensor as nat)), one())
            &&& in_range(units(OLD_WEIGHT_BITS) * units(before), one())
            &&& in_range(units(fresh) + units(kept), 1)
            &&& smooth(sensor, before) == sum_of(fresh, kept)
            &&& smooth(sensor, before) <= MAX_SMOOTHED_BITS
            &&& from_integer(sensor as nat) <= MAX_SMOOTHED_BITS
        }),
{
    let top = MAX_SMOOTHED_BITS;
    let reading = from_integer(sensor as nat);
    lemma_one_bits();
    lemma_weights();
    lemma_top();
    lemma_sensor_bound(sensor);
    lemma_units_compare(reading, top);
    lemma_units_compare(before, top);
    lemma_share(NEW_WEIGHT_BITS, reading);
    lemma_share(OLD_WEIGHT_BITS, before);
    lemma_weight_of_top(NEW_WEIGHT_BITS, 123, reading);
    lemma_weight_of_top(OLD_WEIGHT_BITS, 125, before);
    let fresh = product_of(NEW_WEIGHT_BITS, reading);
    let kept = product_of(OLD_WEIGHT_BITS, before);
    let p = pow2(155);
    vstd::arithmetic::power2::lemma2_to64();
    lemma_pow2_adds(2, 155);
    lemma_pow2_adds(3, 155);
    lemma_pow2_adds(26, 155);
    lemma_pow2_adds(32, 149);
    lemma_pow2_pos(155);
    let num = units(fresh) + units(kept);
    let most: nat = 67108865 * p;
    assert(num <= most);
    lemma_units_next(top);
    lemma_round_between(top, most, 1);
    lemma_integer_in_range(0x2_0000_0000);
    lemma_in_range_rounds(num, 1);
    lemma_rounding_monotone(sum_of(fresh, kept), top, num, most, 1);
}

/// The bound on smoothed readings has the value two to the power of 32.
proof fn lemma_top()
    ensures
        units(MAX_SMOOTHED_BITS) == 0x1_0000_0000 * one(),
        is_finite(MAX_SMOOTHED_BITS),
        from_integer(0x1_0000_0000) == MAX_SMOOTHED_BITS,
        units(MAX_SMOOTHED_BITS) == 67108864 * pow2(155),
        one() == pow2(149),
{
    vstd::arithmetic::power2::lemma2_to64();
    lemma_units_at(158, 0x80_0000);
    lemma_pow2_adds(9, 149);
    lemma_pow2_adds(3, 155);
    lemma_round_exact(MAX_SMOOTHED_BITS, 0x1_0000_0000 * one(), 1);
}

/// No reading exceeds the bound.
proof fn lemma_sensor_bound(sensor: u32)
    ensures
        from_integer(sensor as nat) <= MAX_SMOOTHED_BITS,
        is_finite(from_integer(sensor as nat)),
{
    lemma_top();
    crate::brightness::lemma_from_integer_ordered(sensor as nat, 0x1_0000_0000);
}

/// A weight of a number within the bound is at most that weight of the bound.
proof fn lemma_weight_of_top(weight: u32, t: nat, number: u32)
    requires
        weight <= ONE_BITS,
        t == 123 || t == 125,
        units(weight) == 13421773 * pow2(t),
        number <= MAX_SMOOTHED_BITS,
    ensures
        units(product_of(weight, number)) <= 13421773 * pow2(t + 32),
{
    let top = MAX_SMOOTHED_BITS;
    lemma_one_bits();
    lemma_top();
    lemma_units_compare(number, top);
    lemma_share(weight, number);
    lemma_pow2_adds(32, t);
    vstd::arithmetic::power2::lemma2_to64();
    let whole = lemma_representable(13421773, t + 32);
    let num = units(weight) * units(number);
    let all = units(whole) * one();
    assert(num <= all) by (nonlinear_arith)
        requires
            num == units(weight) * units(number),
            units(number) <= 0x1_0000_0000 * one(),
            units(whole) == 13421773 * (0x1_0000_0000 * pow2(t)),
            units(weight) == 13421773 * pow2(t),
            all == units(whole) * one(),
    ;
    lemma_round_exact(whole, all, one());
    lemma_rounding_monotone(product_of(weight, number), whole, num, all, one());
    lemma_units_compare(product_of(weight, number), whole);
}

/// What following the ambient light needs next.
#[derive(Clone, Copy, Debug)]
pub enum AutoStep {
    /// The text of the file of the highest brightness, which is to be handed
    /// to `max_backlight_read` with these values.
    ReadMaxBacklight { matter: Ratio, ambient: Ratio },
    /// This brightness is to be written.
    WriteBacklight { brightness: u32 },
}

/// The smoothed reading of the ambient light sensor; its view is the pattern
/// of the number.
#[derive(Clone, Copy, Debug)]
pub struct AutoBrightness {
    smoothed: Binary32,
}

impl View for AutoBrightness {
    type V = u32;

    closed spec fn view(&self) -> u32 {
        self.smoothed@
    }
}

impl AutoBrightness {
    /// The smoothed reading is at most two to the power of 32.
    #[verifier::type_invariant]
    pub open spec fn valid(self) -> bool {
        self@ <= MAX_SMOOTHED_BITS
    }

    /// Starts from a first reading, from the text of the sensor's file; zero
    /// where there is none.
    pub fn new(
        filesystem_manager: &FilesystemManager,
        dry: &DryDevice,
        sensor_file: Option<&str>,
    ) -> (r: Self)
        ensures
            r@ == from_integer(
                match filesystem_manager.ambient_light(*dry, file_text(sensor_file)) {
                    Ok(sensor) => sensor as nat,
                    Err(_) => 0,
                },
            ),
    {
        let sensor: u32 = match filesystem_manager.read_ambient_light_sensor(dry, sensor_file) {
            Ok(sensor) => sensor,
            Err(_) => 0,
        };
        proof {
            lemma_sensor_bound(sensor);
        }
        AutoBrightness { smoothed: Binary32::from_u32(sensor) }
    }

    /// Takes in a reading, from the text of the sensor's file: it is smoothed,
    /// and its ratio is stored for the rest of the device to use. Nothing
    /// changes where there is no reading. A ratio of zero of the light itself
    /// needs no other file.
    pub fn sensor_read(
        &mut self,
        filesystem_manager: &FilesystemManager,
        dry: &DryDevice,
        ratios: &mut SharedRatios,
        sensor_file: Option<&str>,
    ) -> (r: Result<AutoStep, Error>)
        ensures
            final(ratios).matter == old(ratios).matter,
            final(ratios).previous == old(ratios).previous,
            match filesystem_manager.ambient_light(*dry, file_text(sensor_file)) {
                Ok(sensor) => {
                    let ratio = ambient_ratio(smooth(sensor, old(self)@));
                    &&& final(self)@ == smooth(sensor, old(self)@)
                    &&& stored(old(ratios).ambient, final(ratios).ambient, ratio)
                    &&& read_as(old(ratios).matter) == 0 ==> r == Ok::<AutoStep, Error>(
                        AutoStep::WriteBacklight { brightness: 0 },
                    )
                    &&& read_as(old(ratios).matter) != 0 ==> (r matches Ok(
                        AutoStep::ReadMaxBacklight { matter, ambient },
                    ) && matter@ == read_as(old(ratios).matter) && ambient@ == ratio)
                },
                Err(e) => {
                    &&& final(self)@ == old(self)@
                    &&& final(ratios).ambient == old(ratios).ambient
                    &&& r == Err::<AutoStep, Error>(e)
                },
            },
    {
        proof {
            use_type_invariant(&*self);
        }
        let sensor: u32 = match filesystem_manager.read_ambient_light_sensor(dry, sensor_file) {
            Ok(sensor) => sensor,
            Err(e) => return Err(e),
        };
        let smoothed: Binary32 = smooth_reading(sensor, self.smoothed);
        *self = AutoBrightness { smoothed };
        let ambient: Ratio = reading_ratio(smoothed);
        ratios.ambient = store_ratio(ratios.ambient, ambient);
        let matter: Ratio = read_ratio(ratios.matter);
        if matter.is_zero() {
            proof {
                crate::brightness::lemma_zero_is_dark();
            }
            match max_backlight_read(filesystem_manager, matter, ambient, None) {
                Ok(brightness) => Ok(AutoStep::WriteBacklight { brightness }),
                Err(e) => Err(e),
            }
        } else {
            Ok(AutoStep::ReadMaxBacklight { matter, ambient })
        }
    }
}

/// The smoothed reading that follows another.
fn smooth_reading(sensor: u32, before: Binary32) -> (r: Binary32)
    requires
        before@ <= MAX_SMOOTHED_BITS,
    ensures
        r@ == smooth(sensor, before@),
        r@ <= MAX_SMOOTHED_BITS,
{
    proof {
        lemma_weights();
        lemma_smooth_steps(sensor, before@);
    }
    let fresh = Binary32::from_bits(NEW_WEIGHT_BITS).times(Binary32::from_u32(sensor));
    let kept = Binary32::from_bits(OLD_WEIGHT_BITS).times(before);
    fresh.plus(kept)
}

/// The ratio of the ambient light that a smoothed reading gives.
fn reading_ratio(smoothed: Binary32) -> (r: Ratio)
    requires
        smoothed@ <= MAX_SMOOTHED_BITS,
    ensures
        r@ == ambient_ratio(smoothed@),
{
    proof {
        lemma_quotient_in_range(smoothed@);
    }
    Ratio::capped(smoothed.divided_by(Binary32::from_u32(AMBIENT_LIGHT_SENSOR_MAX)))
}

/// The brightness to write, given what the file of the highest brightness
/// holds.
pub open spec fn followed_brightness(
    filesystem_manager: FilesystemManager,
    matter: u32,
    ambient: u32,
    file: Option<Seq<char>>,
) -> Result<u32, Error> {
    match filesystem_manager.mapped_brightness(matter, ambient, file) {
        Ok(brightness) => Ok(backlight_value(brightness)),
        Err(e) => Err(e),
    }
}

/// The brightness to write, once the file of the highest brightness was read.
pub fn max_backlight_read(
    filesystem_manager: &FilesystemManager,
    matter: Ratio,
    ambient: Ratio,
    max_file: Option<&str>,
) -> (r: Result<u32, Error>)
    requires
        filesystem_manager.can_scale(matter@, file_text(max_file)),
    ensures
        r == followed_brightness(*filesystem_manager, matter@, ambient@, file_text(max_file)),
{
    match filesystem_manager.map_matter_and_ambient_light_to_brightness(
        matter.float(),
        ambient.float(),
        max_file,
    ) {
        Ok(brightness) => Ok(brightness.to_u32()),
        Err(e) => Err(e),
    }
}

/// No smoothed reading exceeds two to the power of 32, so that smoothing can
/// go on without end.
pub proof fn law_smoothing_is_bounded(sensor: u32, before: u32)
    requires
        before <= MAX_SMOOTHED_BITS,
    ensures
        from_integer(sensor as nat) <= MAX_SMOOTHED_BITS,
        smooth(sensor, before) <= MAX_SMOOTHED_BITS,
        units(MAX_SMOOTHED_BITS) == 0x1_0000_0000 * one(),
{
    lemma_smooth_steps(sensor, before);
    lemma_top();
}

/// A higher reading, or a higher average before it, never lowers the average.
pub proof fn law_smoothing_is_monotone(sensor_a: u32, sensor_b: u32, before_a: u32, before_b: u32)
    requires
        sensor_a <= sensor_b,
        before_a <= before_b <= MAX_SMOOTHED_BITS,
    ensures
        smooth(sensor_a, before_a) <= smooth(sensor_b, before_b),
{
    lemma_one_bits();
    lemma_weights();
    lemma_top();
    let reading_a = from_integer(sensor_a as nat);
    let reading_b = from_integer(sensor_b as nat);
    lemma_smooth_steps(sensor_a, before_a);
    lemma_smooth_steps(sensor_b, before_b);
    crate::brightness::lemma_from_integer_ordered(sensor_a as nat, sensor_b as nat);
    lemma_units_compare(reading_a, MAX_SMOOTHED_BITS);
    lemma_units_compare(reading_b, MAX_SMOOTHED_BITS);
    lemma_units_compare(before_a, MAX_SMOOTHED_BITS);
    lemma_units_compare(before_b, MAX_SMOOTHED_BITS);
    lemma_share(NEW_WEIGHT_BITS, reading_a);
    lemma_share(NEW_WEIGHT_BITS, reading_b);
    lemma_share(OLD_WEIGHT_BITS, before_a);
    lemma_share(OLD_WEIGHT_BITS, before_b);
    lemma_product_monotone(NEW_WEIGHT_BITS, NEW_WEIGHT_BITS, reading_a, reading_b);
    lemma_product_monotone(OLD_WEIGHT_BITS, OLD_WEIGHT_BITS, before_a, before_b);
    let fresh_a = product_of(NEW_WEIGHT_BITS, reading_a);
    let fresh_b = product_of(NEW_WEIGHT_BITS, reading_b);
    let kept_a = product_of(OLD_WEIGHT_BITS, before_a);
    let kept_b = product_of(OLD_WEIGHT_BITS, before_b);
    lemma_units_compare(fresh_a, fresh_b);
    lemma_units_compare(kept_a, kept_b);
    let num_a = units(fresh_a) + units(kept_a);
    let num_b = units(fresh_b) + units(kept_b);
    lemma_in_range_rounds(num_a, 1);
    lemma_in_range_rounds(num_b, 1);
    lemma_rounding_monotone(sum_of(fresh_a, kept_a), sum_of(fresh_b, kept_b), num_a, num_b, 1);
}

/// Without ambient light the average does not rise.
pub proof fn law_darkness_does_not_raise_average(before: u32)
    requires
        before <= MAX_SMOOTHED_BITS,
    ensures
        smooth(0, before) <= before,
{
    lemma_one_bits();
    lemma_weights();
    lemma_top();
    lemma_units_compare(before, MAX_SMOOTHED_BITS);
    lemma_share(OLD_WEIGHT_BITS, before);
    crate::ratio::lemma_units_zero(0);
    assert(from_integer(0) == 0) by {
        lemma_round_exact(0, 0 * one(), 1);
    }
    assert(product_of(NEW_WEIGHT_BITS, 0) == 0) by {
        assert(units(NEW_WEIGHT_BITS) * 0 == 0 * one());
        lemma_round_exact(0, units(NEW_WEIGHT_BITS) * units(0), one());
    }
    let kept = product_of(OLD_WEIGHT_BITS, before);
    lemma_round_exact(kept, units(kept), 1);
}

/// The ratio of the ambient light is at most one; it is one from the sensor's
/// highest reading on, and zero for a smoothed reading of zero.
pub proof fn law_ambient_ratio_is_capped(smoothed: u32)
    requires
        smoothed <= MAX_SMOOTHED_BITS,
    ensures
        ambient_ratio(smoothed) <= ONE_BITS,
        smoothed >= from_integer(AMBIENT_LIGHT_SENSOR_MAX as nat) ==> ambient_ratio(smoothed)
            == ONE_BITS,
        ambient_ratio(0) == 0,
{
    let top = from_integer(AMBIENT_LIGHT_SENSOR_MAX as nat);
    let den = units(top);
    lemma_integer_exact(AMBIENT_LIGHT_SENSOR_MAX as nat);
    lemma_one_bits();
    lemma_top();
    crate::ratio::lemma_units_zero(0);
    assert(0 * one() == 0 * den);
    lemma_round_exact(0, units(0) * one(), den);
    if smoothed >= top {
        lemma_units_compare(smoothed, top);
        lemma_quotient_in_range(smoothed);
        let num = units(smoothed) * one();
        let full = one() * den;
        assert(full <= num) by (nonlinear_arith)
            requires
                full == one() * den,
                num == units(smoothed) * one(),
                den <= units(smoothed),
        ;
        lemma_in_range_rounds(num, den);
        lemma_round_exact(ONE_BITS, full, den);
        lemma_rounding_monotone(ONE_BITS, quotient_of(smoothed, top), full, num, den);
    }
}

/// The quotient by the sensor's highest reading is in range.
proof fn lemma_quotient_in_range(smoothed: u32)
    requires
        smoothed <= MAX_SMOOTHED_BITS,
    ensures
        units(from_integer(AMBIENT_LIGHT_SENSOR_MAX as nat)) > 0,
        in_range(
            units(smoothed) * one(),
            units(from_integer(AMBIENT_LIGHT_SENSOR_MAX as nat)),
        ),
{
    let den = units(from_integer(AMBIENT_LIGHT_SENSOR_MAX as nat));
    lemma_integer_exact(AMBIENT_LIGHT_SENSOR_MAX as nat);
    lemma_one_bits();
    lemma_top();
    lemma_units_compare(smoothed, MAX_SMOOTHED_BITS);
    lemma_integer_in_range(0x1_0000_0000);
    let num = units(smoothed) * one();
    assert(num <= pow2(250) * den) by (nonlinear_arith)
        requires
            num == units(smoothed) * one(),
            units(smoothed) <= pow2(250),
            den == 70 * one(),
    ;
    lemma_small_in_range(num, den);
}

/// The ratio of the ambient light is the number nearest to the smoothed
/// reading's share of 70, or one where that is larger.
pub proof fn law_ambient_ratio_is_the_share_of_the_highest(smoothed: u32, r: u32)
    requires
        smoothed <= 0x4f80_0000,
        rounds_to(r, units(smoothed), 70),
    ensures
        ambient_ratio(smoothed) == (if units(r) <= one() {
            r
        } else {
            0x3f80_0000
        }),
{
    lemma_one_bits();
    lemma_integer_exact(70);
    lemma_rounds_to_scaled(r, units(smoothed), 70, one());
    lemma_nearest(r, units(smoothed) * one(), 70 * one());
    lemma_units_compare(r, ONE_BITS);
}

/// A smoothed reading of at most 70 gives its share of 70, to one part in two
/// to the power of 24 or half a unit.
pub proof fn law_ambient_ratio_is_accurate(smoothed: u32)
    requires
        units(smoothed) <= 70 * one(),
        smoothed < 0x7f80_0000,
    ensures
        16777216 * abs(70 * units(ambient_ratio(smoothed)) - units(smoothed)) <= units(smoothed)
            + 8388608 * 70,
{
    let top = from_integer(70);
    let num = units(smoothed);
    lemma_one_bits();
    lemma_top();
    lemma_integer_exact(70);
    crate::brightness::lemma_from_integer_ordered(70, 0x1_0000_0000);
    lemma_units_compare(smoothed, top);
    lemma_integer_in_range(70);
    assert(num <= pow2(250) * 70) by (nonlinear_arith)
        requires
            num <= pow2(250),
    ;
    lemma_small_in_range(num, 70);
    lemma_in_range_rounds(num, 70);
    let r = nearest(num, 70);
    law_ambient_ratio_is_the_share_of_the_highest(smoothed, r);
    lemma_round_exact(ONE_BITS, one() * 70, 70);
    lemma_rounding_monotone(r, ONE_BITS, num, one() * 70, 70);
    lemma_units_compare(r, ONE_BITS);
    law_rounding_error_is_small(r, num, 70);
}

/// A higher smoothed reading never gives a lower ratio.
pub proof fn law_ambient_ratio_is_monotone(a: u32, b: u32)
    requires
        a <= b <= 0x4f80_0000,
    ensures
        ambient_ratio(a) <= ambient_ratio(b),
{
    let den = units(from_integer(AMBIENT_LIGHT_SENSOR_MAX as nat));
    lemma_top();
    lemma_quotient_in_range(a);
    lemma_quotient_in_range(b);
    lemma_units_compare(a, b);
    let x = units(a) * one();
    let y = units(b) * one();
    assert(x <= y) by (nonlinear_arith)
        requires
            x == units(a) * one(),
            y == units(b) * one(),
            units(a) <= units(b),
    ;
    lemma_in_range_rounds(x, den);
    lemma_in_range_rounds(y, den);
    lemma_rounding_monotone(nearest(x, den), nearest(y, den), x, y, den);
}

/// The average is a fifth of the reading and four fifths of what came before,
/// each step rounded on its own: `w` and `v` are the weights, and `x`, `f`,
/// `k` and `r` are what the steps round to.
pub proof fn law_smoothing_follows_the_formula(
    sensor: u32,
    before: u32,
    w: u32,
    v: u32,
    x: u32,
    f: u32,
    k: u32,
    r: u32,
)
    requires
        rounds_to(w, one(), 5),
        units(w) <= one(),
        rounds_to(v, (one() - units(w)) as nat, 1),
        rounds_to(x, sensor as nat * one(), 1),
        rounds_to(f, units(w) * units(x), one()),
        rounds_to(k, units(v) * units(before), one()),
        rounds_to(r, units(f) + units(k), 1),
    ensures
        smooth(sensor, before) == r,
{
    lemma_one_bits();
    lemma_nearest(w, one(), 5);
    lemma_nearest(v, (one() - units(w)) as nat, 1);
    lemma_nearest(x, sensor as nat * one(), 1);
    lemma_nearest(f, units(w) * units(x), one());
    lemma_nearest(k, units(v) * units(before), one());
    lemma_nearest(r, units(f) + units(k), 1);
}

/// How far the errors of smoothing add up.
proof fn lemma_smoothing_error(
    u: int,
    n: int,
    b: int,
    w: int,
    v: int,
    x: int,
    f: int,
    k: int,
    s: int,
)
    requires
        u > 0,
        n >= 0,
        b >= 0,
        x >= 0,
        f >= 0,
        k >= 0,
        0 <= w,
        0 <= v <= u,
        67108864 * (5 * w - u) == u,
        16777216 * (5 * v - 4 * u) == u,
        16777216 * abs(x - n * u) <= n * u + 8388608,
        16777216 * abs(f * u - w * x) <= w * x + 8388608 * u,
        16777216 * abs(k * u - v * b) <= v * b + 8388608 * u,
        16777216 * abs(s - (f + k)) <= f + k + 8388608,
    ensures
        1048576 * abs(5 * s - (n * u + 4 * b)) <= n * u + 4 * b + 33554432,
{
    let a = n * u;
    let half = 8388608int;
    let c = 16777216int;
    assert(a >= 0) by (nonlinear_arith)
        requires
            a == n * u,
            n >= 0,
            u > 0,
    ;
    assert(x <= 2 * a + half);
    // The products, as multiples of `u`.
    let wx = w * x;
    let vb = v * b;
    assert(0 <= 5 * wx <= (2 * u) * x) by (nonlinear_arith)
        requires
            wx == w * x,
            0 <= 5 * w <= 2 * u,
            x >= 0,
    ;
    assert((2 * u) * x <= u * (4 * a + 2 * half)) by (nonlinear_arith)
        requires
            x <= 2 * a + half,
            u > 0,
    ;
    assert(0 <= vb <= u * b) by (nonlinear_arith)
        requires
            vb == v * b,
            0 <= v <= u,
            b >= 0,
    ;
    // The shares themselves.
    assert(5 * (f * u) <= 2 * (5 * wx) + 5 * (half * u));
    assert(5 * f <= 8 * a + 9 * half) by (nonlinear_arith)
        requires
            5 * (f * u) <= 2 * (u * (4 * a + 2 * half)) + 5 * (half * u),
            u > 0,
    ;
    assert(k * u <= 2 * (u * b) + half * u);
    assert(k <= 2 * b + half) by (nonlinear_arith)
        requires
            k * u <= 2 * (u * b) + half * u,
            u > 0,
    ;
    // The parts of the error.
    let e1 = c * (5 * (s - (f + k)));
    let y1 = 8 * a + 10 * b + 19 * half;
    assert(-y1 <= e1 <= y1);
    crate::brightness::lemma_bound_times(e1, y1, u);
    let e2 = c * (5 * (f * u - wx));
    let y2 = u * (4 * a + 7 * half);
    assert(u * (4 * a + 7 * half) == u * (4 * a + 2 * half) + 5 * (half * u)) by (nonlinear_arith);
    assert(-y2 <= e2 <= y2);
    let e3 = c * (5 * (k * u - vb));
    let y3 = 5 * (u * b) + 5 * (half * u);
    assert(-y3 <= e3 <= y3);
    let d = c * (x - a);
    assert(-(a + half) <= d <= a + half);
    crate::brightness::lemma_bound_times(d, a + half, 5 * w);
    assert((a + half) * (5 * w) <= (a + half) * (2 * u)) by (nonlinear_arith)
        requires
            5 * w <= 2 * u,
            a + half >= 0,
    ;
    let e5 = (c * (5 * w - u)) * a;
    assert(0 <= e5 <= u * a) by (nonlinear_arith)
        requires
            e5 == (c * (5 * w - u)) * a,
            4 * (c * (5 * w - u)) == u,
            a >= 0,
            u > 0,
    ;
    let total = c * (5 * s - (a + 4 * b));
    let (su, wa, ua, ub) = (s * u, w * a, u * a, u * b);
    assert(total * u == c * (5 * su - ua - 4 * ub)) by (nonlinear_arith)
        requires
            total == c * (5 * s - (a + 4 * b)),
            su == s * u,
            ua == u * a,
            ub == u * b,
    ;
    assert(e1 * u == c * (5 * su - 5 * (f * u) - 5 * (k * u))) by (nonlinear_arith)
        requires
            e1 == c * (5 * (s - (f + k))),
            su == s * u,
    ;
    assert(d * (5 * w) == c * (5 * wx - 5 * wa)) by (nonlinear_arith)
        requires
            d == c * (x - a),
            wx == w * x,
            wa == w * a,
    ;
    assert(e5 == c * (5 * wa - ua)) by (nonlinear_arith)
        requires
            e5 == (c * (5 * w - u)) * a,
            wa == w * a,
            ua == u * a,
    ;
    assert(ub == c * (5 * vb - 4 * ub)) by (nonlinear_arith)
        requires
            c * (5 * v - 4 * u) == u,
            vb == v * b,
            ub == u * b,
    ;
    assert(total * u == e1 * u + e2 + e3 + d * (5 * w) + e5 + u * b);
    let bound = 15 * a + 16 * b + 33 * half;
    assert(bound * u == y1 * u + y2 + y3 + (a + half) * (2 * u) + u * a + u * b)
        by (nonlinear_arith)
        requires
            bound == 15 * a + 16 * b + 33 * half,
            y1 == 8 * a + 10 * b + 19 * half,
            y2 == u * (4 * a + 7 * half),
            y3 == 5 * (u * b) + 5 * (half * u),
    ;
    assert(u * b >= 0);
    assert(-(bound * u) <= total * u <= bound * u);
    assert(-bound <= total <= bound) by (nonlinear_arith)
        requires
            -(bound * u) <= total * u <= bound * u,
            u > 0,
    ;
}

/// As exact values, five times the average is the reading and four times what
/// came before, to one part in two to the power of 20 and a few units.
pub proof fn law_smoothing_is_a_weighted_average(sensor: u32, before: u32)
    requires
        before <= 0x4f80_0000,
    ensures
        1048576 * abs(
            5 * units(smooth(sensor, before)) - (sensor * one() + 4 * units(before)),
        ) <= sensor * one() + 4 * units(before) + 33554432,
{
    let u = one();
    let x = from_integer(sensor as nat);
    let f = product_of(NEW_WEIGHT_BITS, x);
    let k = product_of(OLD_WEIGHT_BITS, before);
    let s = smooth(sensor, before);
    lemma_one_bits();
    lemma_weights();
    lemma_top();
    lemma_smooth_steps(sensor, before);
    lemma_sensor_bound(sensor);
    lemma_integer_in_range(sensor as nat);
    lemma_integer_in_range(0x2_0000_0000);
    lemma_in_range_rounds(sensor as nat * u, 1);
    lemma_in_range_rounds(units(NEW_WEIGHT_BITS) * units(x), u);
    lemma_in_range_rounds(units(OLD_WEIGHT_BITS) * units(before), u);
    lemma_in_range_rounds(units(f) + units(k), 1);
    lemma_units_compare(x, MAX_SMOOTHED_BITS);
    lemma_units_compare(before, MAX_SMOOTHED_BITS);
    lemma_share(NEW_WEIGHT_BITS, x);
    lemma_share(OLD_WEIGHT_BITS, before);
    lemma_units_compare(f, x);
    lemma_units_compare(k, before);
    let limit = pow2(250);
    let (w, v) = (units(NEW_WEIGHT_BITS), units(OLD_WEIGHT_BITS));
    crate::ratio::lemma_ratio_at_most_one(NEW_WEIGHT_BITS);
    crate::ratio::lemma_ratio_at_most_one(OLD_WEIGHT_BITS);
    assert(w * units(x) <= limit * u && v * units(before) <= limit * u) by (nonlinear_arith)
        requires
            w <= u,
            v <= u,
            units(x) <= limit,
            units(before) <= limit,
    ;
    law_rounding_error_is_small(x, sensor as nat * u, 1);
    law_rounding_error_is_small(f, w * units(x), u);
    law_rounding_error_is_small(k, v * units(before), u);
    law_rounding_error_is_small(s, units(f) + units(k), 1);
    vstd::arithmetic::power2::lemma2_to64();
    lemma_pow2_adds(26, 123);
    lemma_pow2_adds(2, 123);
    assert(u == 67108864 * pow2(123));
    assert(pow2(125) == 4 * pow2(123));
    lemma_smoothing_error(
        u as int,
        sensor as int,
        units(before) as int,
        w as int,
        v as int,
        units(x) as int,
        units(f) as int,
        units(k) as int,
        units(s) as int,
    );
}

/// Following the ambient light writes the scaled brightness without its
/// fraction, fails where the highest brightness is needed and not known, and
/// needs it only for a light that is not dark.
pub proof fn law_following_writes_the_scaled_brightness(
    filesystem_manager: FilesystemManager,
    matter: u32,
    ambient: u32,
    file: Option<Seq<char>>,
)
    ensures
        at_most_zero(matter) ==> followed_brightness(filesystem_manager, matter, ambient, file)
            == Ok::<u32, Error>(0),
        !at_most_zero(matter) ==> followed_brightness(filesystem_manager, matter, ambient, file)
            == (match filesystem_manager.max_backlight(file) {
            Ok(max) => Ok::<u32, Error>(backlight_value(scaled_brightness(matter, ambient, max))),
            Err(_) => Err(Error::Failure),
        }),
{
    crate::brightness::lemma_zero_is_dark();
}

/// The sensor's highest reading, and the bound on smoothed readings.
pub proof fn law_sensor_limits()
    ensures
        AMBIENT_LIGHT_SENSOR_MAX == 70,
        MAX_SMOOTHED_BITS == 0x4f80_0000,
{
}

}
