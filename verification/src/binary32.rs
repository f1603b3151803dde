//! Nonnegative finite binary32 numbers and their correctly rounded arithmetic,
//! computed on integers.

use vstd::arithmetic::power2::{
    lemma_pow2_adds, lemma_pow2_pos, lemma_pow2_strictly_increases, lemma_pow2_unfold, pow2,
};
use vstd::prelude::*;

use crate::rounding::{
    encloses, in_range, is_finite, lemma_decompose, lemma_double, lemma_halve,
    lemma_in_range_rounds, lemma_nearest, lemma_overflow, lemma_round_last_bit,
    lemma_small_in_range, lemma_units_ordered, nearest, one, rounded, rounds_to, scale, significand,
    units, INFINITY_BITS,
};

verus! {

/// The number nearest to the integer `n`.
pub open spec fn from_integer(n: nat) -> u32 {
    nearest(n * one(), 1)
}

/// The rounded product of two numbers.
pub open spec fn product_of(a: u32, b: u32) -> u32 {
    nearest(units(a) * units(b), one())
}

/// The rounded quotient of two numbers.
pub open spec fn quotient_of(a: u32, b: u32) -> u32 {
    nearest(units(a) * one(), units(b))
}

/// The rounded sum of two numbers.
pub open spec fn sum_of(a: u32, b: u32) -> u32 {
    nearest(units(a) + units(b), 1)
}

/// The integer part of a number.
pub open spec fn whole_part(a: u32) -> nat {
    units(a) / one()
}

/// A nonnegative finite binary32 number; its view is its bit pattern.
#[derive(Clone, Copy, Debug)]
pub struct Binary32 {
    bits: u32,
}

impl View for Binary32 {
    type V = u32;

    closed spec fn view(&self) -> u32 {
        self.bits
    }
}

/// A product of an integer and a power of two is that many steps.
proof fn lemma_exact(m: nat, s: nat, d: nat, num: nat, den: nat)
    requires
        num == m * pow2(s),
        den == pow2(d),
    ensures
        encloses(m, s - d, false, num, den),
{
    let e = s - d;
    lemma_pow2_pos(d);
    lemma_pow2_pos(s);
    if e >= 0 {
        lemma_pow2_adds(e as nat, d);
        let step = pow2(e as nat) * den;
        assert((m + 1) * step == m * step + step) by (nonlinear_arith);
    } else {
        lemma_pow2_adds(s, (-e) as nat);
        let p = pow2((-e) as nat);
        assert(num * p == m * (pow2(s) * p)) by (nonlinear_arith)
            requires
                num == m * pow2(s),
        ;
        assert((m + 1) * den == m * den + den) by (nonlinear_arith);
    }
}

/// Rounds a value that lies at `m` steps of size two to the power of `e`, or
/// where `inexact`, between that and one step more.
fn round_steps(
    m: u128,
    e: i32,
    inexact: bool,
    Ghost(num): Ghost<nat>,
    Ghost(den): Ghost<nat>,
) -> (bits: u32)
    requires
        den > 0,
        -1000 <= e <= 1000,
        encloses(m as nat, e as int, inexact, num, den),
        inexact ==> m >= 0x100_0000 || e <= -1,
    ensures
        bits == rounded(num, den),
        in_range(num, den) ==> rounds_to(bits, num, den),
        bits <= INFINITY_BITS,
        bits == INFINITY_BITS <==> !in_range(num, den),
{
    let mut m: u128 = m;
    let mut e: i32 = e;
    let mut inexact: bool = inexact;
    proof {
        if in_range(num, den) {
            lemma_in_range_rounds(num, den);
        }
    }
    while m >= 0x200_0000 || e < -1
        invariant
            den > 0,
            -1000 <= e <= 1000,
            encloses(m as nat, e as int, inexact, num, den),
            inexact ==> m >= 0x100_0000 || e <= -1,
            in_range(num, den) ==> rounds_to(nearest(num, den), num, den),
        decreases m + (if e < -1 { -1 - e } else { 0 }),
    {
        if e > 252 {
            proof {
                lemma_overflow(m as nat, e as int, inexact, num, den);
            }
            return INFINITY_BITS;
        }
        proof {
            lemma_halve(m as nat, e as int, inexact, num, den);
        }
        inexact = inexact || m % 2 == 1;
        m = m / 2;
        e = e + 1;
    }
    while m < 0x100_0000 && e > -1
        invariant
            den > 0,
            -1 <= e <= 1000,
            encloses(m as nat, e as int, inexact, num, den),
            inexact ==> m >= 0x100_0000 || e <= -1,
            m < 0x200_0000,
        decreases e + 1,
    {
        proof {
            lemma_double(m as nat, e as int, num, den);
        }
        m = m * 2;
        e = e - 1;
    }
    if e > 252 {
        proof {
            lemma_overflow(m as nat, e as int, inexact, num, den);
        }
        return INFINITY_BITS;
    }
    proof {
        lemma_round_last_bit(m as nat, e as int, inexact, num, den);
    }
    let low: u32 = (e + 1) as u32 * 0x80_0000 + (m / 2) as u32;
    if m % 2 == 1 && (inexact || (m / 2) % 2 == 1) {
        low + 1
    } else {
        low
    }
}

impl Binary32 {
    /// The pattern is that of a nonnegative finite number.
    #[verifier::type_invariant]
    pub open spec fn valid(self) -> bool {
        is_finite(self@)
    }

    /// The number zero.
    pub fn zero() -> (r: Binary32)
        ensures
            r@ == 0,
    {
        Binary32 { bits: 0 }
    }

    /// The number of a bit pattern.
    pub fn from_bits(bits: u32) -> (r: Binary32)
        requires
            is_finite(bits),
        ensures
            r@ == bits,
    {
        Binary32 { bits }
    }

    /// The number nearest to an integer.
    pub fn from_u32(n: u32) -> (r: Binary32)
        ensures
            r@ == from_integer(n as nat),
            rounds_to(r@, n as nat * one(), 1),
    {
        let ghost num = n as nat * one();
        proof {
            lemma_integer_in_range(n as nat);
            vstd::arithmetic::power2::lemma2_to64();
            lemma_exact(n as nat, 149, 0, num, 1);
        }
        Binary32 { bits: round_steps(n as u128, 149, false, Ghost(num), Ghost(1)) }
    }

    /// The rounded product.
    pub fn times(self, other: Binary32) -> (r: Binary32)
        requires
            in_range(units(self@) * units(other@), one()),
        ensures
            r@ == product_of(self@, other@),
            rounds_to(r@, units(self@) * units(other@), one()),
    {
        Binary32 { bits: self.product_pattern(other) }
    }

    /// The pattern of the rounded product, which may be that of infinity.
    pub fn product_pattern(self, other: Binary32) -> (bits: u32)
        ensures
            bits == rounded(units(self@) * units(other@), one()),
            bits <= INFINITY_BITS,
            in_range(units(self@) * units(other@), one()) ==> is_finite(bits) && rounds_to(
                bits,
                units(self@) * units(other@),
                one(),
            ),
    {
        let (m_a, t_a) = self.parts();
        let (m_b, t_b) = other.parts();
        assert(m_a * m_b <= 0x100_0000 * 0x100_0000) by (nonlinear_arith)
            requires
                m_a <= 0x100_0000,
                m_b <= 0x100_0000,
        ;
        let m: u128 = m_a as u128 * m_b as u128;
        let ghost num = units(self@) * units(other@);
        proof {
            lemma_pow2_adds(t_a as nat, t_b as nat);
            lemma_pow2_pos(149);
            let p = pow2(t_a as nat);
            let q = pow2(t_b as nat);
            assert(num == (m_a * m_b) * (p * q)) by (nonlinear_arith)
                requires
                    num == (m_a * p) * (m_b * q),
            ;
            lemma_exact(m as nat, (t_a + t_b) as nat, 149, num, one());
        }
        round_steps(m, t_a + t_b - 149, false, Ghost(num), Ghost(one()))
    }

    /// The rounded quotient.
    pub fn divided_by(self, other: Binary32) -> (r: Binary32)
        requires
            units(other@) > 0,
            in_range(units(self@) * one(), units(other@)),
        ensures
            r@ == quotient_of(self@, other@),
            rounds_to(r@, units(self@) * one(), units(other@)),
    {
        let (m_a, t_a) = self.parts();
        let (m_b, t_b) = other.parts();
        proof {
            if m_b == 0 {
                assert(0 * pow2(t_b as nat) == 0);
            }
        }
        let wide: u128 = m_a as u128 * 0x1_0000_0000_0000_0000;
        let m: u128 = wide / m_b as u128;
        let inexact: bool = wide % m_b as u128 != 0;
        let e: i32 = t_a - t_b + 85;
        let ghost num = units(self@) * one();
        let ghost den = units(other@);
        proof {
            lemma_quotient_steps(m_a as nat, t_a as nat, m_b as nat, t_b as nat);
            if m_a == 0 {
                vstd::arithmetic::div_mod::lemma_small_mod(0, m_b as nat);
            } else {
                assert(m >= 0x100_0000) by (nonlinear_arith)
                    requires
                        m == wide / m_b as u128,
                        0 < m_b < 0x100_0000,
                        wide >= 0x1_0000_0000_0000_0000,
                ;
            }
        }
        Binary32 { bits: round_steps(m, e, inexact, Ghost(num), Ghost(den)) }
    }

    /// The rounded sum.
    pub fn plus(self, other: Binary32) -> (r: Binary32)
        requires
            in_range(units(self@) + units(other@), 1),
        ensures
            r@ == sum_of(self@, other@),
            rounds_to(r@, units(self@) + units(other@), 1),
    {
        if self.bits < other.bits {
            other.plus_smaller(self)
        } else {
            self.plus_smaller(other)
        }
    }

    /// The rounded sum with a number that is not larger.
    fn plus_smaller(self, other: Binary32) -> (r: Binary32)
        requires
            other@ <= self@,
            in_range(units(self@) + units(other@), 1),
        ensures
            r@ == sum_of(self@, other@),
            rounds_to(r@, units(self@) + units(other@), 1),
    {
        let (m_a, t_a) = self.parts();
        let (m_b, t_b) = other.parts();
        proof {
            vstd::arithmetic::power2::lemma2_to64();
        }
        // Widen the larger one towards the scale of the smaller.
        let mut m: u128 = m_a as u128;
        let mut e: i32 = t_a;
        while e > t_b && m < 0x1_0000_0000_0000_0000_0000_0000
            invariant
                t_b <= e < 254,
                0 <= t_b,
                m < 0x2_0000_0000_0000_0000_0000_0000,
                m * pow2(e as nat) == units(self@),
            decreases e,
        {
            proof {
                lemma_pow2_unfold(e as nat);
                let half = pow2((e - 1) as nat);
                assert((2 * m) * half == m * (2 * half)) by (nonlinear_arith);
            }
            m = m * 2;
            e = e - 1;
        }
        // Bring the smaller one to the scale that was reached.
        let mut k: u128 = m_b as u128;
        let mut t: i32 = t_b;
        let mut inexact: bool = false;
        proof {
            lemma_exact(m_b as nat, t_b as nat, 0, units(other@), 1);
        }
        while t < e
            invariant
                0 <= t <= e < 254,
                k < 0x100_0000,
                encloses(k as nat, t as int, inexact, units(other@), 1),
                inexact ==> t > t_b,
                t >= t_b,
            decreases e - t,
        {
            proof {
                lemma_halve(k as nat, t as int, inexact, units(other@), 1);
            }
            inexact = inexact || k % 2 == 1;
            k = k / 2;
            t = t + 1;
        }
        let ghost num = units(self@) + units(other@);
        proof {
            let step = pow2(e as nat) * 1;
            assert(step == pow2(e as nat));
            assert((m + k) * step == m * step + k * step) by (nonlinear_arith);
            assert((m + k + 1) * step == m * step + (k + 1) * step) by (nonlinear_arith);
        }
        Binary32 { bits: round_steps(m + k, e, inexact, Ghost(num), Ghost(1)) }
    }

    /// Whether the number is smaller than another.
    pub fn less_than(self, other: Binary32) -> (r: bool)
        ensures
            r <==> units(self@) < units(other@),
            r <==> self@ < other@,
    {
        proof {
            use_type_invariant(self);
            use_type_invariant(other);
            lemma_units_compare(self@, other@);
        }
        self.bits < other.bits
    }

    /// The integer part, or the largest `u32` where it is larger.
    pub fn to_u32(self) -> (r: u32)
        ensures
            r == (if whole_part(self@) <= u32::MAX { whole_part(self@) } else { u32::MAX as nat }),
    {
        let (m, t) = self.parts();
        let mut v: u64 = m as u64;
        if t >= 149 {
            let mut i: i32 = 149;
            proof {
                assert(v * pow2(149) == v * one());
            }
            while i < t
                invariant
                    149 <= i <= t < 254,
                    v <= u32::MAX,
                    m * pow2(i as nat) == v * one(),
                    units(self@) == m * pow2(t as nat),
                decreases t - i,
            {
                proof {
                    lemma_pow2_unfold((i + 1) as nat);
                    assert(m * (2 * pow2(i as nat)) == 2 * (m * pow2(i as nat))) by (nonlinear_arith);
                    assert((2 * v) * one() == 2 * (v * one())) by (nonlinear_arith);
                }
                v = v * 2;
                i = i + 1;
                if v > u32::MAX as u64 {
                    proof {
                        lemma_saturates(m as nat, i as nat, t as nat, v as nat);
                    }
                    return u32::MAX;
                }
            }
            proof {
                lemma_pow2_pos(149);
                vstd::arithmetic::div_mod::lemma_div_multiples_vanish(v as int, one() as int);
                assert(one() * v == v * one()) by (nonlinear_arith);
            }
            v as u32
        } else {
            let mut i: i32 = t;
            proof {
                lemma_pow2_pos(0);
                vstd::arithmetic::power2::lemma2_to64();
                assert(m as nat / pow2(0) == m);
            }
            while i < 149
                invariant
                    0 <= t <= i <= 149,
                    v < 0x100_0000,
                    v == m as nat / pow2((i - t) as nat),
                decreases 149 - i,
            {
                proof {
                    lemma_pow2_unfold((i - t + 1) as nat);
                    lemma_pow2_pos((i - t) as nat);
                    let p = pow2((i - t) as nat);
                    vstd::arithmetic::div_mod::lemma_div_denominator(m as int, p as int, 2);
                    assert(p * 2 == 2 * p);
                }
                v = v / 2;
                i = i + 1;
            }
            proof {
                let p = pow2(t as nat);
                let q = pow2((149 - t) as nat);
                lemma_pow2_adds(t as nat, (149 - t) as nat);
                lemma_pow2_pos(t as nat);
                lemma_pow2_pos((149 - t) as nat);
                vstd::arithmetic::div_mod::lemma_div_multiples_vanish_quotient(p as int, m as int, q as int);
                assert(m * p == p * m) by (nonlinear_arith);
            }
            v as u32
        }
    }

    /// The integer part, or the largest `u8` where it is larger.
    pub fn to_u8(self) -> (r: u8)
        ensures
            r == (if whole_part(self@) <= u8::MAX { whole_part(self@) } else { u8::MAX as nat }),
    {
        let whole: u32 = self.to_u32();
        if whole <= u8::MAX as u32 {
            whole as u8
        } else {
            u8::MAX
        }
    }

    /// The significand and the scale of the number.
    fn parts(self) -> (r: (u32, i32))
        ensures
            r.0 == significand(self@),
            r.1 == scale(self@),
            units(self@) == r.0 * pow2(r.1 as nat),
            r.0 < 0x100_0000,
            0 <= r.1 < 254,
            r.0 >= 0x80_0000 || r.1 == 0,
    {
        proof {
            use_type_invariant(self);
            lemma_decompose(self.bits);
        }
        if self.bits < 0x80_0000 {
            (self.bits, 0)
        } else {
            (self.bits % 0x80_0000 + 0x80_0000, (self.bits / 0x80_0000) as i32 - 1)
        }
    }

    /// The bit pattern of the number.
    pub fn to_bits(self) -> (bits: u32)
        ensures
            bits == self@,
            is_finite(bits),
    {
        proof {
            use_type_invariant(self);
        }
        self.bits
    }
}

/// Integers of 33 bits are in range.
pub proof fn lemma_integer_in_range(n: nat)
    requires
        n <= 0x2_0000_0000,
    ensures
        in_range(n * one(), 1),
        n * one() <= pow2(182),
        pow2(182) <= pow2(250),
{
    lemma_pow2_adds(33, 149);
    vstd::arithmetic::power2::lemma2_to64_rest();
    vstd::arithmetic::power2::lemma2_to64();
    assert(n * pow2(149) <= pow2(33) * pow2(149)) by (nonlinear_arith)
        requires
            n <= pow2(33),
    ;
    lemma_pow2_strictly_increases(182, 250);
    lemma_small_in_range(n * one(), 1);
}

/// Patterns compare as their values do.
pub proof fn lemma_units_compare(a: u32, b: u32)
    requires
        is_finite(a),
        is_finite(b),
    ensures
        units(a) < units(b) <==> a < b,
        units(a) == units(b) <==> a == b,
{
    if a < b {
        lemma_units_ordered(a, b);
    } else if b < a {
        lemma_units_ordered(b, a);
    }
}

/// Long division of the significands gives the steps of a quotient.
proof fn lemma_quotient_steps(m_a: nat, t_a: nat, m_b: nat, t_b: nat)
    requires
        m_b > 0,
    ensures
        ({
            let wide = m_a * 0x1_0000_0000_0000_0000;
            encloses(
                wide / m_b,
                t_a - t_b + 85,
                wide % m_b != 0,
                (m_a * pow2(t_a)) * one(),
                m_b * pow2(t_b),
            )
        }),
{
    let wide = m_a * 0x1_0000_0000_0000_0000;
    let m = wide / m_b;
    let e = t_a - t_b + 85;
    let num = (m_a * pow2(t_a)) * one();
    let den = m_b * pow2(t_b);
    assert(m * m_b <= wide < (m + 1) * m_b && (wide % m_b != 0 <==> m * m_b != wide)) by {
        vstd::arithmetic::div_mod::lemma_fundamental_div_mod(wide as int, m_b as int);
        vstd::arithmetic::div_mod::lemma_mod_bound(wide as int, m_b as int);
        assert(m_b * m == m * m_b) by (nonlinear_arith);
        assert((m + 1) * m_b == m * m_b + m_b) by (nonlinear_arith);
    }
    vstd::arithmetic::power2::lemma2_to64();
    if e >= 0 {
        let common = pow2(t_a + 85);
        lemma_pow2_adds(e as nat, t_b);
        lemma_pow2_adds(t_a, 149);
        lemma_pow2_adds(64, t_a + 85);
        let step = pow2(e as nat) * den;
        assert(step == m_b * common) by (nonlinear_arith)
            requires
                step == pow2(e as nat) * (m_b * pow2(t_b)),
                pow2(e as nat) * pow2(t_b) == common,
        ;
        assert(num == wide * common) by (nonlinear_arith)
            requires
                num == (m_a * pow2(t_a)) * pow2(149),
                pow2(t_a) * pow2(149) == 0x1_0000_0000_0000_0000 * common,
                wide == m_a * 0x1_0000_0000_0000_0000,
        ;
        lemma_pow2_pos(t_a + 85);
        lemma_common_factor(m, m_b, wide, common);
    } else {
        let common = pow2(t_b);
        let p = pow2((-e) as nat);
        lemma_pow2_adds(t_a, 149);
        lemma_pow2_adds(t_a + 149, (-e) as nat);
        lemma_pow2_adds(64, t_b);
        assert(num * p == wide * common) by (nonlinear_arith)
            requires
                num == (m_a * pow2(t_a)) * pow2(149),
                (pow2(t_a) * pow2(149)) * p == 0x1_0000_0000_0000_0000 * common,
                wide == m_a * 0x1_0000_0000_0000_0000,
        ;
        lemma_pow2_pos(t_b);
        lemma_common_factor(m, m_b, wide, common);
    }
}

proof fn lemma_common_factor(m: nat, step: nat, value: nat, factor: nat)
    by (nonlinear_arith)
    requires
        m * step <= value < (m + 1) * step,
        factor > 0,
    ensures
        m * (step * factor) <= value * factor < (m + 1) * (step * factor),
        m * (step * factor) == value * factor <==> m * step == value,
{
    assert(m * (step * factor) == (m * step) * factor);
    assert((m + 1) * (step * factor) == ((m + 1) * step) * factor);
}

/// A doubled significand that has left the range of `u32` stays outside.
proof fn lemma_saturates(m: nat, i: nat, t: nat, v: nat)
    requires
        i <= t,
        m * pow2(i) == v * one(),
        v > u32::MAX,
    ensures
        (m * pow2(t)) / one() > u32::MAX,
{
    lemma_pow2_pos(149);
    if i < t {
        lemma_pow2_strictly_increases(i, t);
    }
    assert(m * pow2(t) >= v * one()) by (nonlinear_arith)
        requires
            m * pow2(i) == v * one(),
            pow2(i) <= pow2(t),
    ;
    vstd::arithmetic::div_mod::lemma_div_is_ordered((v * one()) as int, (m * pow2(t)) as int, one() as int);
    vstd::arithmetic::div_mod::lemma_div_multiples_vanish(v as int, one() as int);
    assert(one() * v == v * one()) by (nonlinear_arith);
}

/// The operations give the number that their exact result rounds to, whatever
/// number that is.
pub proof fn law_operations_are_correctly_rounded(a: u32, b: u32, n: nat, r: u32)
    ensures
        rounds_to(r, n * one(), 1) ==> from_integer(n) == r,
        rounds_to(r, units(a) * units(b), one()) ==> product_of(a, b) == r,
        units(b) > 0 && rounds_to(r, units(a) * one(), units(b)) ==> quotient_of(a, b) == r,
        rounds_to(r, units(a) + units(b), 1) ==> sum_of(a, b) == r,
{
    lemma_pow2_pos(149);
    if rounds_to(r, n * one(), 1) {
        lemma_nearest(r, n * one(), 1);
    }
    if rounds_to(r, units(a) * units(b), one()) {
        lemma_nearest(r, units(a) * units(b), one());
    }
    if units(b) > 0 && rounds_to(r, units(a) * one(), units(b)) {
        lemma_nearest(r, units(a) * one(), units(b));
    }
    if rounds_to(r, units(a) + units(b), 1) {
        lemma_nearest(r, units(a) + units(b), 1);
    }
}

/// Every integer of up to 33 bits rounds to a number.
pub proof fn law_integers_round(n: nat)
    requires
        n <= 0x1_0000_0000,
    ensures
        rounds_to(from_integer(n), n * one(), 1),
{
    lemma_integer_in_range(n);
    lemma_in_range_rounds(n * one(), 1);
}

/// The integer part of a number is at most the number, and less than one below
/// it.
pub proof fn law_whole_part_drops_the_fraction(a: u32)
    ensures
        whole_part(a) * one() <= units(a) < (whole_part(a) + 1) * one(),
{
    lemma_pow2_pos(149);
    let w = whole_part(a);
    vstd::arithmetic::div_mod::lemma_fundamental_div_mod(units(a) as int, one() as int);
    vstd::arithmetic::div_mod::lemma_mod_bound(units(a) as int, one() as int);
    assert(one() * w == w * one()) by (nonlinear_arith);
    assert((w + 1) * one() == w * one() + one()) by (nonlinear_arith);
}

}
