//! The values of the nonnegative finite binary32 numbers, and rounding to the
//! nearest of them.
//!
//! Such a number is its bit pattern. Every one of them is a whole multiple of
//! the smallest, two to the power of -149, which is the unit that values are
//! counted in here: `units` is a value in units, and `one` is the number one.

use vstd::arithmetic::power2::{
    lemma_pow2_pos, lemma_pow2_strictly_increases, lemma_pow2_unfold, pow2,
};
use vstd::math::abs;
use vstd::prelude::*;

verus! {

/// The bit pattern of positive infinity: the patterns below it are the
/// nonnegative finite numbers.
pub const INFINITY_BITS: u32 = 0x7f80_0000;

/// The number one, counted in units.
pub open spec fn one() -> nat {
    pow2(149)
}

/// Whether `bits` is the pattern of a nonnegative finite number.
pub open spec fn is_finite(bits: u32) -> bool {
    bits < INFINITY_BITS
}

/// The significand of a pattern, with the implicit bit where there is one.
pub open spec fn significand(bits: u32) -> nat {
    if bits < 0x80_0000 {
        bits as nat
    } else {
        (bits % 0x80_0000 + 0x80_0000) as nat
    }
}

/// The power of two, in units, that the significand of a pattern is scaled by.
pub open spec fn scale(bits: u32) -> nat {
    if bits < 0x80_0000 {
        0
    } else {
        (bits / 0x80_0000 - 1) as nat
    }
}

/// The value of a pattern, counted in units.
pub open spec fn units(bits: u32) -> nat {
    significand(bits) * pow2(scale(bits))
}

/// How far the value of `bits` is from `num / den` units, times `den`.
pub open spec fn distance(bits: u32, num: nat, den: nat) -> nat {
    let scaled = units(bits) * den;
    if scaled <= num {
        (num - scaled) as nat
    } else {
        (scaled - num) as nat
    }
}

/// `bits` is the number that `num / den` units round to: no other is nearer,
/// and of two that are equally near it is the one with an even significand.
pub open spec fn rounds_to(bits: u32, num: nat, den: nat) -> bool {
    &&& is_finite(bits)
    &&& forall|other: u32| #[trigger]
        is_finite(other) && other != bits ==> {
            ||| distance(bits, num, den) < distance(other, num, den)
            ||| distance(bits, num, den) == distance(other, num, den) && bits % 2 == 0
        }
}

/// The number that `num / den` units round to.
pub open spec fn nearest(num: nat, den: nat) -> u32 {
    choose|bits: u32| rounds_to(bits, num, den)
}

/// A significand of full width at a given scale has that product for its
/// value, also where the significand is one past the widest.
pub proof fn lemma_units_at(t: nat, k: nat)
    requires
        t < 254,
        0x80_0000 <= k <= 0x100_0000 || (t == 0 && k <= 0x100_0000),
    ensures
        t * 0x80_0000 + k <= u32::MAX,
        units((t * 0x80_0000 + k) as u32) == k * pow2(t),
{
    let bits = (t * 0x80_0000 + k) as u32;
    if k < 0x80_0000 {
    } else if k == 0x100_0000 {
        assert(bits as int == (t + 2) * 0x80_0000);
        assert(bits % 0x80_0000 == 0);
        assert(bits / 0x80_0000 == t + 2);
        lemma_pow2_unfold(t + 1);
        assert(0x80_0000 * (2 * pow2(t)) == 0x100_0000 * pow2(t));
    } else {
        assert(bits as int == (t + 1) * 0x80_0000 + (k - 0x80_0000));
        assert(bits / 0x80_0000 == t + 1);
        assert(bits % 0x80_0000 == k - 0x80_0000);
    }
}

/// Every finite pattern is a significand at a scale.
pub proof fn lemma_decompose(bits: u32)
    requires
        is_finite(bits),
    ensures
        bits == scale(bits) * 0x80_0000 + significand(bits),
        scale(bits) < 254,
        significand(bits) < 0x100_0000,
        significand(bits) >= 0x80_0000 || scale(bits) == 0,
{
}

/// The next pattern is one significand step further.
pub proof fn lemma_units_next(bits: u32)
    requires
        is_finite(bits),
    ensures
        units((bits + 1) as u32) == units(bits) + pow2(scale(bits)),
        units(bits) < units((bits + 1) as u32),
{
    lemma_decompose(bits);
    let t = scale(bits);
    let k = significand(bits);
    lemma_units_at(t, k + 1);
    assert((k + 1) * pow2(t) == k * pow2(t) + pow2(t)) by (nonlinear_arith);
    lemma_pow2_pos(t);
}

/// Values are ordered as their patterns are.
pub proof fn lemma_units_ordered(a: u32, b: u32)
    requires
        a < b <= INFINITY_BITS,
    ensures
        units(a) < units(b),
    decreases b,
{
    let c = (b - 1) as u32;
    lemma_units_next(c);
    if a < c {
        lemma_units_ordered(a, c);
    }
}

/// Multiplying by a positive number keeps a strict order.
proof fn lemma_scaled_less(a: nat, b: nat, den: nat)
    by (nonlinear_arith)
    requires
        a < b,
        den > 0,
    ensures
        a * den < b * den,
{
}

/// Patterns outside a pair of neighbours that encloses a value are farther
/// from it than the neighbour on their side.
proof fn lemma_outside_is_farther(low: u32, other: u32, num: nat, den: nat)
    requires
        den > 0,
        low + 1 < INFINITY_BITS,
        is_finite(other),
        units(low) * den <= num <= units((low + 1) as u32) * den,
    ensures
        other < low ==> distance(low, num, den) < distance(other, num, den),
        other > low + 1 ==> distance((low + 1) as u32, num, den) < distance(other, num, den),
{
    let high = (low + 1) as u32;
    if other < low {
        lemma_units_ordered(other, low);
        lemma_scaled_less(units(other), units(low), den);
    }
    if other > high {
        lemma_units_ordered(high, other);
        lemma_scaled_less(units(high), units(other), den);
    }
}

/// Which of two neighbours a value between them rounds to.
pub proof fn lemma_round_between(low: u32, num: nat, den: nat)
    requires
        den > 0,
        low + 1 < INFINITY_BITS,
        units(low) * den <= num <= units((low + 1) as u32) * den,
    ensures
        ({
            let high = (low + 1) as u32;
            let middle = units(low) * den + units(high) * den;
            if 2 * num < middle || (2 * num == middle && low % 2 == 0) {
                rounds_to(low, num, den)
            } else {
                rounds_to(high, num, den)
            }
        }),
{
    let high = (low + 1) as u32;
    lemma_units_next(low);
    lemma_scaled_less(units(low), units(high), den);
    let middle = units(low) * den + units(high) * den;
    let chosen = if 2 * num < middle || (2 * num == middle && low % 2 == 0) {
        low
    } else {
        high
    };
    assert forall|other: u32| #[trigger] is_finite(other) && other != chosen implies {
        ||| distance(chosen, num, den) < distance(other, num, den)
        ||| distance(chosen, num, den) == distance(other, num, den) && chosen % 2 == 0
    } by {
        lemma_outside_is_farther(low, other, num, den);
    }
}

/// Rounding keeps the order of values.
pub proof fn lemma_rounding_monotone(a: u32, b: u32, num_a: nat, num_b: nat, den: nat)
    requires
        den > 0,
        num_a <= num_b,
        rounds_to(a, num_a, den),
        rounds_to(b, num_b, den),
    ensures
        a <= b,
{
    if b < a {
        lemma_units_ordered(b, a);
        lemma_scaled_less(units(b), units(a), den);
        assert(is_finite(a) && is_finite(b));
        // Both values lie in the middle of the two numbers, so both numbers
        // are even, and the one between them is nearer than either.
        let c = (b + 1) as u32;
        assert(is_finite(c));
        assert(c < a);
        lemma_units_ordered(b, c);
        lemma_scaled_less(units(b), units(c), den);
        lemma_units_ordered(c, a);
        lemma_scaled_less(units(c), units(a), den);
    }
}

/// A value rounds to one number only.
pub proof fn lemma_rounding_unique(a: u32, b: u32, num: nat, den: nat)
    requires
        den > 0,
        rounds_to(a, num, den),
        rounds_to(b, num, den),
    ensures
        a == b,
{
    lemma_rounding_monotone(a, b, num, num, den);
    lemma_rounding_monotone(b, a, num, num, den);
}

/// A value that is a number rounds to it.
pub proof fn lemma_round_exact(bits: u32, num: nat, den: nat)
    requires
        den > 0,
        is_finite(bits),
        num == units(bits) * den,
    ensures
        rounds_to(bits, num, den),
        nearest(num, den) == bits,
{
    assert forall|other: u32| #[trigger] is_finite(other) && other != bits implies {
        distance(bits, num, den) < distance(other, num, den)
    } by {
        if other < bits {
            lemma_units_ordered(other, bits);
            lemma_scaled_less(units(other), units(bits), den);
        } else {
            lemma_units_ordered(bits, other);
            lemma_scaled_less(units(bits), units(other), den);
        }
    }
    lemma_nearest(bits, num, den);
}

/// The number that a value rounds to is its `nearest`.
pub proof fn lemma_nearest(bits: u32, num: nat, den: nat)
    requires
        den > 0,
        rounds_to(bits, num, den),
    ensures
        nearest(num, den) == bits,
{
    lemma_rounding_unique(bits, nearest(num, den), num, den);
}

/// The largest pattern up to `top` whose value does not exceed `num / den`.
proof fn lemma_floor_exists(top: u32, num: nat, den: nat) -> (low: u32)
    requires
        den > 0,
        is_finite(top),
        num < units((top + 1) as u32) * den,
    ensures
        low <= top,
        units(low) * den <= num < units((low + 1) as u32) * den,
    decreases top,
{
    if units(top) * den <= num {
        top
    } else if top == 0 {
        assert(units(0) * den == 0) by {
            assert(0 * pow2(0) == 0);
            assert(0 * den == 0);
        }
        top
    } else {
        lemma_floor_exists((top - 1) as u32, num, den)
    }
}

/// Every value up to the largest number rounds to some number.
pub proof fn lemma_rounding_exists(num: nat, den: nat)
    requires
        den > 0,
        num < units((INFINITY_BITS - 1) as u32) * den,
    ensures
        rounds_to(nearest(num, den), num, den),
{
    let low = lemma_floor_exists((INFINITY_BITS - 2) as u32, num, den);
    lemma_round_between(low, num, den);
}

/// Whether `num / den` units round to a finite number: they are below the
/// middle between the largest one and the number that would come next, which
/// the pattern of infinity stands for.
pub open spec fn in_range(num: nat, den: nat) -> bool {
    2 * num < units((INFINITY_BITS - 1) as u32) * den + units(INFINITY_BITS) * den
}

/// The number that `num / den` units round to, or infinity where they are out
/// of range.
pub open spec fn rounded(num: nat, den: nat) -> u32 {
    if in_range(num, den) {
        nearest(num, den)
    } else {
        INFINITY_BITS
    }
}

/// The largest number and the one that would come next.
pub proof fn lemma_largest()
    ensures
        units((INFINITY_BITS - 1) as u32) == 0xff_ffff * pow2(253),
        units(INFINITY_BITS) == 0x100_0000 * pow2(253),
        pow2(250) < pow2(253),
{
    lemma_units_at(253, 0xff_ffff);
    lemma_units_at(253, 0x100_0000);
    lemma_pow2_strictly_increases(250, 253);
}

/// Values of at most two to the power of 101 are in range.
pub proof fn lemma_small_in_range(num: nat, den: nat)
    requires
        den > 0,
        num <= pow2(250) * den,
    ensures
        in_range(num, den),
{
    lemma_largest();
    lemma_scaled_less(pow2(250), units((INFINITY_BITS - 1) as u32), den);
    lemma_scaled_less(pow2(250), units(INFINITY_BITS), den);
}

/// Values in range from the largest number on round to it.
proof fn lemma_round_largest(num: nat, den: nat)
    requires
        den > 0,
        num >= units((INFINITY_BITS - 1) as u32) * den,
    ensures
        rounds_to((INFINITY_BITS - 1) as u32, num, den),
{
    let largest = (INFINITY_BITS - 1) as u32;
    assert forall|other: u32| #[trigger] is_finite(other) && other != largest implies {
        distance(largest, num, den) < distance(other, num, den)
    } by {
        lemma_units_ordered(other, largest);
        lemma_scaled_less(units(other), units(largest), den);
    }
}

/// Every value in range rounds to some number.
pub proof fn lemma_in_range_rounds(num: nat, den: nat)
    requires
        den > 0,
        in_range(num, den),
    ensures
        rounds_to(nearest(num, den), num, den),
{
    let largest = (INFINITY_BITS - 1) as u32;
    if num < units(largest) * den {
        lemma_rounding_exists(num, den);
    } else {
        lemma_round_largest(num, den);
    }
}

/// `num / den` units lie at or above `m` steps of size two to the power of
/// `e`, and below `m + 1` of them; `inexact` tells whether they are above.
pub open spec fn encloses(m: nat, e: int, inexact: bool, num: nat, den: nat) -> bool {
    let (step, value) = if e >= 0 {
        (pow2(e as nat) * den, num)
    } else {
        (den, num * pow2((-e) as nat))
    };
    &&& m * step <= value < (m + 1) * step
    &&& inexact <==> m * step != value
}

/// Steps of twice the size: half as many, and the odd one becomes inexact.
pub proof fn lemma_halve(m: nat, e: int, inexact: bool, num: nat, den: nat)
    requires
        encloses(m, e, inexact, num, den),
    ensures
        encloses(m / 2, e + 1, inexact || m % 2 == 1, num, den),
{
    let h = m / 2;
    if e >= 0 {
        let p = pow2(e as nat);
        lemma_pow2_unfold((e + 1) as nat);
        let step = p * den;
        let double = (2 * p) * den;
        assert(double == 2 * step) by (nonlinear_arith)
            requires
                double == (2 * p) * den,
                step == p * den,
        ;
        lemma_halve_steps(m, step, num);
        assert(h * (2 * step) == h * double);
    } else {
        let q = pow2((-e) as nat);
        lemma_pow2_unfold((-e) as nat);
        let half = pow2((-e - 1) as nat);
        lemma2_to_0();
        assert(num * q == 2 * (num * half)) by (nonlinear_arith)
            requires
                q == 2 * half,
        ;
        lemma_halve_steps(m, den, 2 * (num * half));
        assert(h * (2 * den) == 2 * (h * den)) by (nonlinear_arith);
        assert((h + 1) * (2 * den) == 2 * ((h + 1) * den)) by (nonlinear_arith);
        if e == -1 {
            lemma_times_one(num, half);
            lemma_times_one(den, pow2(0));
        }
    }
}

proof fn lemma_times_one(x: nat, factor: nat)
    by (nonlinear_arith)
    requires
        factor == 1,
    ensures
        x * factor == x,
        factor * x == x,
{
}

proof fn lemma2_to_0()
    ensures
        pow2(0) == 1,
{
    vstd::arithmetic::power2::lemma2_to64();
}

proof fn lemma_times_pow2_1(x: nat)
    ensures
        x * pow2(1) == 2 * x,
{
    lemma2_to_0();
    lemma_pow2_unfold(1);
    assert(x * pow2(1) == 2 * x) by (nonlinear_arith)
        requires
            pow2(1) == 2,
    ;
}

proof fn lemma_halve_steps(m: nat, step: nat, value: nat)
    requires
        m * step <= value < (m + 1) * step,
    ensures
        (m / 2) * (2 * step) <= value < (m / 2 + 1) * (2 * step),
        (m / 2) * (2 * step) == value <==> (m * step == value && m % 2 == 0),
{
    let h = m / 2;
    let r = m % 2;
    assert(m == 2 * h + r);
    assert(m * step == h * (2 * step) + r * step) by (nonlinear_arith)
        requires
            m == 2 * h + r,
    ;
    assert((m + 1) * step == m * step + step) by (nonlinear_arith);
    assert((h + 1) * (2 * step) == h * (2 * step) + 2 * step) by (nonlinear_arith);
    assert(0 * step == 0 && 1 * step == step);
}

/// Steps of half the size: twice as many of them.
pub proof fn lemma_double(m: nat, e: int, num: nat, den: nat)
    requires
        den > 0,
        e >= 0,
        encloses(m, e, false, num, den),
    ensures
        encloses(2 * m, e - 1, false, num, den),
{
    let p = pow2(e as nat);
    lemma2_to_0();
    if e >= 1 {
        lemma_pow2_unfold(e as nat);
        let half = pow2((e - 1) as nat);
        lemma_pow2_pos((e - 1) as nat);
        assert((2 * m) * (half * den) == m * (p * den)) by (nonlinear_arith)
            requires
                p == 2 * half,
        ;
        assert((2 * m + 1) * (half * den) == (2 * m) * (half * den) + half * den)
            by (nonlinear_arith);
        assert(half * den > 0) by (nonlinear_arith)
            requires
                half > 0,
                den > 0,
        ;
    } else {
        lemma_times_pow2_1(num);
        lemma_times_one(den, p);
        assert((2 * m) * den == 2 * (m * den)) by (nonlinear_arith);
        assert((2 * m + 1) * den == (2 * m) * den + den) by (nonlinear_arith);
    }
}

/// Where the steps are half as wide as the significand's, their number decides
/// which of the two neighbours the value rounds to.
pub proof fn lemma_round_last_bit(m: nat, e: int, inexact: bool, num: nat, den: nat)
    requires
        den > 0,
        -1 <= e <= 252,
        m < 0x200_0000,
        m >= 0x100_0000 || e == -1,
        encloses(m, e, inexact, num, den),
    ensures
        ({
            let low = ((e + 1) * 0x80_0000 + m / 2) as u32;
            let up = m % 2 == 1 && (inexact || (m / 2) % 2 == 1);
            let bits = if up { (low + 1) as u32 } else { low };
            &&& low + 1 <= INFINITY_BITS
            &&& in_range(num, den) ==> rounds_to(bits, num, den)
            &&& bits == rounded(num, den)
        }),
{
    let t = (e + 1) as nat;
    let k = m / 2;
    let g = m % 2;
    let low = (t * 0x80_0000 + k) as u32;
    let high = (low + 1) as u32;
    lemma_units_at(t, k);
    lemma_units_at(t, k + 1);
    let width = pow2(t) * den;
    lemma2_to_0();
    // Twice the value lies between `m` and `m + 1` widths.
    assert(m * width <= 2 * num < (m + 1) * width && (inexact <==> m * width != 2 * num)) by {
        if e >= 0 {
            lemma_pow2_unfold(t);
            let step = pow2(e as nat) * den;
            assert(width == 2 * step) by (nonlinear_arith)
                requires
                    width == (2 * pow2(e as nat)) * den,
                    step == pow2(e as nat) * den,
            ;
            assert(m * (2 * step) == 2 * (m * step)) by (nonlinear_arith);
            assert((m + 1) * (2 * step) == 2 * ((m + 1) * step)) by (nonlinear_arith);
        } else {
            lemma_times_pow2_1(num);
            lemma_times_one(den, pow2(t));
        }
    }
    assert(units(low) * den == k * width) by (nonlinear_arith)
        requires
            units(low) == k * pow2(t),
            width == pow2(t) * den,
    ;
    assert(units(high) * den == (k + 1) * width) by (nonlinear_arith)
        requires
            units(high) == (k + 1) * pow2(t),
            width == pow2(t) * den,
    ;
    assert((k + 1) * width == k * width + width) by (nonlinear_arith);
    assert((m + 1) * width == m * width + width) by (nonlinear_arith);
    assert(m * width == 2 * (k * width) + g * width) by (nonlinear_arith)
        requires
            m == 2 * k + g,
    ;
    assert(0 * width == 0 && 1 * width == width);
    lemma_pow2_pos(t);
    assert(width > 0) by (nonlinear_arith)
        requires
            width == pow2(t) * den,
            pow2(t) > 0,
            den > 0,
    ;
    assert(low % 2 == k % 2);
    if high == INFINITY_BITS {
        lemma_round_largest(num, den);
        lemma_nearest(low, num, den);
    } else {
        let largest = (INFINITY_BITS - 1) as u32;
        lemma_units_next(largest);
        lemma_scaled_less(units(largest), units(INFINITY_BITS), den);
        if high < largest {
            lemma_units_ordered(high, largest);
            lemma_scaled_less(units(high), units(largest), den);
        }
        lemma_round_between(low, num, den);
        let bits = if g == 1 && (inexact || k % 2 == 1) {
            high
        } else {
            low
        };
        lemma_nearest(bits, num, den);
    }
}

/// Many steps that are larger than those of the largest number are out of
/// range.
pub proof fn lemma_overflow(m: nat, e: int, inexact: bool, num: nat, den: nat)
    requires
        den > 0,
        m >= 0x100_0000,
        e > 252,
        encloses(m, e, inexact, num, den),
    ensures
        rounded(num, den) == INFINITY_BITS,
{
    let top = units(INFINITY_BITS);
    lemma_largest();
    lemma_pow2_pos(253);
    if e > 253 {
        lemma_pow2_strictly_increases(253, e as nat);
    }
    let p = pow2(e as nat);
    assert(top * den <= m * (p * den)) by (nonlinear_arith)
        requires
            top == 0x100_0000 * pow2(253),
            pow2(253) <= p,
            m >= 0x100_0000,
    ;
    lemma_scaled_less(units((INFINITY_BITS - 1) as u32), top, den);
}

/// A product of a significand and a power of two is the value of a number.
pub proof fn lemma_representable(m: nat, t: nat) -> (bits: u32)
    requires
        m <= 0x100_0000,
        t < 253,
    ensures
        is_finite(bits),
        units(bits) == m * pow2(t),
    decreases t,
{
    if m >= 0x80_0000 || t == 0 {
        lemma_units_at(t, m);
        (t * 0x80_0000 + m) as u32
    } else {
        lemma_pow2_unfold(t);
        let half = pow2((t - 1) as nat);
        assert((2 * m) * half == m * (2 * half)) by (nonlinear_arith);
        lemma_representable(2 * m, (t - 1) as nat)
    }
}

/// The value of a pattern with the exponent field `e` and the fraction `f`:
/// the fraction alone where the exponent field is zero, else the fraction with
/// an implicit bit above it, doubled once for every exponent from one on. The
/// unit is two to the power of -149.
pub proof fn law_pattern_holds_exponent_and_fraction(e: nat, f: nat)
    requires
        e < 255,
        f < 8388608,
    ensures
        ({
            let bits = (8388608 * e + f) as u32;
            &&& is_finite(bits)
            &&& e == 0 ==> units(bits) == f
            &&& e > 0 ==> units(bits) == (8388608 + f) * pow2((e - 1) as nat)
        }),
        one() == pow2(149),
{
    lemma2_to_0();
    if e == 0 {
        lemma_units_at(0, f);
        lemma_times_one(f, pow2(0));
    } else {
        lemma_units_at((e - 1) as nat, 8388608 + f);
    }
}

/// The finite numbers are the patterns below that of infinity.
pub proof fn law_finite_patterns(bits: u32)
    ensures
        is_finite(bits) <==> bits < 0x7f80_0000,
        INFINITY_BITS == 0x7f80_0000,
{
}

/// A value rounds to the number that no other finite number is nearer to than
/// it is; where another is equally near, to the one whose pattern is even.
pub proof fn law_rounding_is_to_nearest_even(bits: u32, num: nat, den: nat)
    ensures
        rounds_to(bits, num, den) <==> {
            &&& bits < 0x7f80_0000
            &&& forall|other: u32|
                other < 0x7f80_0000 && other != bits ==> {
                    let near = abs(units(bits) * den - num);
                    let far = abs(#[trigger] units(other) * den - num);
                    near < far || (near == far && bits % 2 == 0)
                }
        },
{
    assert forall|other: u32| distance(other, num, den) == abs(
        #[trigger] units(other) * den - num,
    ) by {}
    if rounds_to(bits, num, den) {
        assert forall|other: u32| other < 0x7f80_0000 && other != bits implies {
            let near = abs(units(bits) * den - num);
            let far = abs(#[trigger] units(other) * den - num);
            near < far || (near == far && bits % 2 == 0)
        } by {
            assert(is_finite(other));
        }
    }
    if bits < 0x7f80_0000 && forall|other: u32|
        other < 0x7f80_0000 && other != bits ==> {
            let near = abs(units(bits) * den - num);
            let far = abs(#[trigger] units(other) * den - num);
            near < far || (near == far && bits % 2 == 0)
        } {
        assert forall|other: u32| #[trigger] is_finite(other) && other != bits implies {
            ||| distance(bits, num, den) < distance(other, num, den)
            ||| distance(bits, num, den) == distance(other, num, den) && bits % 2 == 0
        } by {
            assert(distance(other, num, den) == abs(units(other) * den - num));
            assert(distance(bits, num, den) == abs(units(bits) * den - num));
        }
    }
}

/// The values in range are those below the middle between the largest number
/// and two to the power of 128. Each of them rounds to exactly one number; the
/// others become infinite.
pub proof fn law_rounding_of_values_in_range(num: nat, den: nat, bits: u32)
    requires
        den > 0,
    ensures
        in_range(num, den) <==> num < (0x1ff_ffff * pow2(252)) * den,
        in_range(num, den) ==> rounds_to(rounded(num, den), num, den),
        in_range(num, den) && rounds_to(bits, num, den) ==> bits == rounded(num, den),
        rounds_to(bits, num, den) ==> bits == nearest(num, den),
        !in_range(num, den) ==> rounded(num, den) == 0x7f80_0000,
{
    lemma_largest();
    lemma_pow2_unfold(253);
    let p = pow2(252);
    assert(units((INFINITY_BITS - 1) as u32) * den + units(INFINITY_BITS) * den == 2 * ((0x1ff_ffff
        * p) * den)) by (nonlinear_arith)
        requires
            units((INFINITY_BITS - 1) as u32) == 0xff_ffff * (2 * p),
            units(INFINITY_BITS) == 0x100_0000 * (2 * p),
    ;
    if in_range(num, den) {
        lemma_in_range_rounds(num, den);
    }
    if rounds_to(bits, num, den) {
        lemma_nearest(bits, num, den);
    }
}

/// Rounding is off by no more than one part in two to the power of 24, or by
/// half a unit.
pub proof fn law_rounding_error_is_small(bits: u32, num: nat, den: nat)
    requires
        den > 0,
        num <= pow2(250) * den,
        rounds_to(bits, num, den),
    ensures
        16777216 * abs(units(bits) * den - num) <= num + 8388608 * den,
{
    lemma_largest();
    lemma_scaled_less(pow2(250), units((INFINITY_BITS - 1) as u32), den);
    let low = lemma_floor_exists((INFINITY_BITS - 2) as u32, num, den);
    let high = (low + 1) as u32;
    lemma_round_between(low, num, den);
    let chosen = if rounds_to(low, num, den) {
        low
    } else {
        high
    };
    lemma_rounding_unique(bits, chosen, num, den);
    lemma_units_next(low);
    lemma_decompose(low);
    lemma2_to_0();
    let p = pow2(scale(low));
    let k = significand(low);
    assert(is_finite(low) && is_finite(high));
    assert(distance(bits, num, den) <= distance(low, num, den));
    assert(distance(bits, num, den) <= distance(high, num, den));
    assert(units(high) * den == units(low) * den + p * den) by (nonlinear_arith)
        requires
            units(high) == units(low) + p,
    ;
    assert(2 * distance(bits, num, den) <= p * den);
    if scale(low) == 0 {
        lemma_times_one(den, p);
    } else {
        assert(8388608 * (p * den) <= units(low) * den) by (nonlinear_arith)
            requires
                units(low) == k * p,
                k >= 8388608,
        ;
    }
    assert(distance(bits, num, den) == abs(units(bits) * den - num));
}

/// A value that is counted in smaller steps rounds to the same number.
pub proof fn lemma_rounds_to_scaled(bits: u32, num: nat, den: nat, k: nat)
    requires
        k > 0,
        rounds_to(bits, num, den),
    ensures
        rounds_to(bits, num * k, den * k),
{
    lemma_distance_scaled(bits, num, den, k);
    assert forall|other: u32| #[trigger] is_finite(other) && other != bits implies {
        ||| distance(bits, num * k, den * k) < distance(other, num * k, den * k)
        ||| distance(bits, num * k, den * k) == distance(other, num * k, den * k) && bits % 2 == 0
    } by {
        lemma_distance_scaled(other, num, den, k);
        let near = distance(bits, num, den);
        let far = distance(other, num, den);
        if near < far {
            lemma_scaled_less(near, far, k);
        }
    }
}

proof fn lemma_distance_scaled(bits: u32, num: nat, den: nat, k: nat)
    requires
        k > 0,
    ensures
        distance(bits, num * k, den * k) == distance(bits, num, den) * k,
{
    let u = units(bits);
    assert(u * (den * k) == (u * den) * k) by (nonlinear_arith);
    let a = u * den;
    if a <= num {
        assert((num - a) * k == num * k - a * k) by (nonlinear_arith);
        assert(a * k <= num * k) by (nonlinear_arith)
            requires
                a <= num,
        ;
    } else {
        assert((a - num) * k == a * k - num * k) by (nonlinear_arith);
        lemma_scaled_less(num, a, k);
    }
}

}
