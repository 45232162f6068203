//! Arithmetic in double precision.
//!
//! The finite doubles that are not negative are the whole multiples of a tiny unit, 2^-1074,
//! with at most 53 significant bits. Here they are counted in that unit, so that one is
//! 2^1074 units. There is no largest one: no result is compared with a number anywhere near
//! the point where doubles overflow.

use vstd::arithmetic::power2;
use vstd::prelude::*;

verus! {

/// The quotient, rounded to the nearest whole number, and to the even one of two nearest.
pub open spec fn half_even(num: nat, den: nat) -> nat {
    let whole = num / den;
    let rest = num % den;
    if 2 * rest < den || (2 * rest == den && whole % 2 == 0) {
        whole
    } else {
        whole + 1
    }
}

/// The doubles around `num / den` units are multiples of 2^grain units: the quotient has 53
/// bits from there up, or fewer where the grain is the unit itself.
pub open spec fn is_grain(num: nat, den: nat, grain: nat) -> bool {
    &&& num < den * power2::pow2(53 + grain)
    &&& grain == 0 || num >= den * power2::pow2(52 + grain)
}

/// The double nearest to `num / den` units, and the one with an even significand of two
/// nearest.
pub open spec fn nearest(num: nat, den: nat) -> nat {
    let grain = choose|grain: nat| is_grain(num, den, grain);
    half_even(num, den * power2::pow2(grain)) * power2::pow2(grain)
}

/// A whole number as a double.
pub open spec fn converted(value: nat) -> nat {
    nearest(value * power2::pow2(1074), 1)
}

/// The average of `total` over `partitions`, computed in doubles.
pub open spec fn average(partitions: nat, total: nat) -> nat {
    nearest(converted(total) * power2::pow2(1074), converted(partitions))
}

/// The product of two doubles.
pub open spec fn product(one: nat, other: nat) -> nat {
    nearest(one * other, power2::pow2(1074))
}

/// A number that doubles hold exactly, together with all smaller ones, and that a machine
/// integer holds too.
pub open spec fn is_counted(value: nat) -> bool {
    value < 0x20_0000_0000_0000 && value <= usize::MAX
}

/// The limit of what is counted is 2^53.
pub proof fn lemma_counted()
    ensures
        power2::pow2(53) == 0x20_0000_0000_0000,
{
    power2::lemma2_to64_rest();
}

/// The difference of two doubles, the greater one first.
pub open spec fn difference(one: nat, other: nat) -> nat {
    nearest((one - other) as nat, 1)
}

/// The quotient, rounded up.
pub open spec fn ceiling(dividend: nat, divisor: nat) -> nat {
    if dividend % divisor == 0 {
        dividend / divisor
    } else {
        dividend / divisor + 1
    }
}

/// A double as a whole number, rounded up. What a machine integer cannot hold becomes the
/// greatest one.
pub open spec fn rounded_up(double: nat) -> nat {
    let whole = ceiling(double, power2::pow2(1074));
    if whole < usize::MAX {
        whole
    } else {
        usize::MAX as nat
    }
}

/// `significand` times a power of two.
pub open spec fn scaled(significand: nat, exponent: nat) -> nat {
    significand * power2::pow2(exponent)
}

/// A number of units that is a double: one with at most 53 significant bits.
pub open spec fn is_double(units: nat) -> bool {
    exists|significand: nat, exponent: nat|
        significand <= power2::pow2(53) && units == #[trigger] scaled(significand, exponent)
}

/// A double that is not negative: `significand * 2^exponent` units.
#[derive(Debug, Clone, Copy, PartialEq, Eq, Structural)]
pub struct Double {
    significand: u64,
    exponent: u32,
}

impl Double {
    /// The number of units.
    pub closed spec fn units(self) -> nat {
        scaled(self.significand as nat, self.exponent as nat)
    }

    /// The double has 53 bits, or fewer where it is zero or counts units, and an exponent that
    /// leaves room for those of factors.
    pub closed spec fn is_moderate(self) -> bool {
        &&& self.significand <= 0x20_0000_0000_0000
        &&& self.significand == 0 || self.exponent == 0 || self.significand >= 0x10_0000_0000_0000
        &&& self.exponent <= 0x1000
    }

    /// The double nearest to `num * 2^up / (den * 2^down)` units.
    fn nearest_to(num: u128, den: u128, up: u32, down: u32) -> (double: Double)
        requires
            num < 0x40_0000_0000_0000_0000_0000_0000_0000,
            0 < den <= 0x1_0000_0000_0000_0000,
            up <= 0x20000,
            down <= 0x20000,
        ensures
            double.units() == nearest(
                scaled(num as nat, up as nat),
                scaled(den as nat, down as nat),
            ),
            double.significand <= 0x20_0000_0000_0000,
            double.significand == 0 || double.exponent == 0 || double.significand
                >= 0x10_0000_0000_0000,
            double.exponent <= up + 128,
    {
        let ghost goal = nearest(scaled(num as nat, up as nat), scaled(den as nat, down as nat));
        let common: u32 = if up < down {
            up
        } else {
            down
        };
        let mut a: u128 = num;
        let mut b: u128 = den;
        let mut exponent: u32 = up - common;
        let mut below: u32 = down - common;
        proof {
            lemma_cancel(num as nat, den as nat, exponent as nat, below as nat, common as nat);
        }
        while below > 0
            invariant
                a < 0x40_0000_0000_0000_0000_0000_0000_0000,
                0 < b <= 0x100_0000_0000_0000_0000_0000_0000_0000,
                exponent > 0 ==> below == 0 && b <= 0x1_0000_0000_0000_0000,
                exponent <= up,
                goal == nearest(scaled(num as nat, up as nat), scaled(den as nat, down as nat)),
                goal == nearest(scaled(a as nat, exponent as nat), scaled(b as nat, below as nat)),
            decreases below,
        {
            if b > 2 * a {
                proof {
                    lemma_scaled_zero(a as nat);
                    lemma_scaled_up(b as nat, below as nat);
                    lemma_nearest_none(a as nat, scaled(b as nat, below as nat));
                    lemma_scaled_zero(0);
                }
                return Double { significand: 0, exponent: 0 };
            }
            proof {
                lemma_shift(b as nat, below as nat);
            }
            b = 2 * b;
            below = below - 1;
        }
        let ghost top = exponent;
        proof {
            lemma_scaled_zero(b as nat);
            power2::lemma2_to64();
        }
        while a / 0x20_0000_0000_0000 >= b
            invariant
                a < 0x40_0000_0000_0000_0000_0000_0000_0000,
                0 < b <= 0x100_0000_0000_0000_0000_0000_0000_0000,
                exponent > 0 ==> b <= 0x4_0000_0000_0000_0000,
                top <= exponent <= top + 66,
                top <= up <= 0x20000,
                b >= power2::pow2((exponent - top) as nat),
                goal == nearest(scaled(a as nat, exponent as nat), b as nat),
            decreases top + 66 - exponent,
        {
            proof {
                lemma_nearest_scale(scaled(a as nat, exponent as nat), b as nat, 2);
                lemma_shift(a as nat, (exponent + 1) as nat);
                power2::lemma_pow2_unfold((exponent + 1 - top) as nat);
                if exponent >= top + 65 {
                    power2::lemma2_to64();
                    power2::lemma_pow2_unfold(65);
                    lemma_power_mono(1, 65, (exponent - top) as nat);
                    assert(b >= 0x2_0000_0000_0000_0000);
                }
            }
            b = 2 * b;
            exponent = exponent + 1;
        }
        while exponent > 0 && a / 0x10_0000_0000_0000 < b && a > 0
            invariant
                0 < b <= 0x100_0000_0000_0000_0000_0000_0000_0000,
                a < b * 0x20_0000_0000_0000,
                exponent > 0 ==> b <= 0x4_0000_0000_0000_0000,
                exponent <= up + 66,
                goal == nearest(scaled(a as nat, exponent as nat), b as nat),
            decreases exponent,
        {
            proof {
                lemma_shift(a as nat, exponent as nat);
            }
            a = 2 * a;
            exponent = exponent - 1;
        }
        let whole: u128 = a / b;
        let rest: u128 = a % b;
        proof {
            lemma_at_grain(a as nat, b as nat, exponent as nat);
        }
        let significand: u64 = if 2 * rest < b || (2 * rest == b && whole % 2 == 0) {
            whole as u64
        } else {
            (whole + 1) as u64
        };
        Double { significand, exponent }
    }

    /// Converts a whole number.
    pub(crate) fn converting(value: usize) -> (double: Double)
        ensures
            double.units() == converted(value as nat),
            double.is_moderate(),
    {
        proof {
            lemma_scaled_zero(1);
        }
        Double::nearest_to(value as u128, 1, 1074, 0)
    }

    /// Computes the average of `total` over `partitions`.
    pub(crate) fn averaging(partitions: usize, total: usize) -> (double: Double)
        requires
            partitions > 0,
        ensures
            double.units() == average(partitions as nat, total as nat),
            double.is_moderate(),
    {
        proof {
            lemma_scaled_zero(1);
        }
        let dividend: Double = Double::nearest_to(total as u128, 1, 1074, 0);
        let divisor: Double = Double::nearest_to(partitions as u128, 1, 1074, 0);
        proof {
            lemma_converted_positive(partitions as nat);
            lemma_scaled_twice(dividend.significand as nat, dividend.exponent as nat, 1074);
            if divisor.significand == 0 {
                assert(0 * power2::pow2(divisor.exponent as nat) == 0) by (nonlinear_arith);
            }
        }
        Double::nearest_to(
            dividend.significand as u128,
            divisor.significand as u128,
            dividend.exponent + 1074,
            divisor.exponent,
        )
    }

    /// Multiplies by `significand * 2^exponent` units.
    pub(crate) fn times(&self, significand: u64, exponent: u16) -> (double: Double)
        requires
            self.is_moderate(),
        ensures
            double.units() == product(self.units(), scaled(significand as nat, exponent as nat)),
    {
        proof {
            let a = self.significand as nat;
            let b = significand as nat;
            let p = power2::pow2(self.exponent as nat);
            let q = power2::pow2(exponent as nat);
            power2::lemma_pow2_adds(self.exponent as nat, exponent as nat);
            assert((a * p) * (b * q) == (a * b) * (p * q)) by (nonlinear_arith);
            assert(1 * power2::pow2(1074) == power2::pow2(1074)) by (nonlinear_arith);
            assert(a * b <= 0x20_0000_0000_0000 * u64::MAX) by (nonlinear_arith)
                requires
                    a <= 0x20_0000_0000_0000,
                    b <= u64::MAX,
            ;
        }
        let both: u128 = self.significand as u128 * significand as u128;
        Double::nearest_to(both, 1, self.exponent + exponent as u32, 1074)
    }

    /// Whether this double is not zero.
    pub(crate) fn is_positive(&self) -> (positive: bool)
        ensures
            positive == (self.units() > 0),
    {
        proof {
            lemma_scaled_up(self.significand as nat, self.exponent as nat);
            assert(0 * power2::pow2(self.exponent as nat) == 0) by (nonlinear_arith);
        }
        self.significand > 0
    }

    /// Subtracts a smaller double.
    pub(crate) fn minus(&self, other: Double) -> (double: Double)
        requires
            self.is_moderate(),
            other.is_moderate(),
            self.units() > other.units(),
        ensures
            double.units() == difference(self.units(), other.units()),
    {
        proof {
            lemma_scaled_zero(1);
        }
        let ghost one = self.units();
        if other.significand == 0 {
            proof {
                assert(0 * power2::pow2(other.exponent as nat) == 0) by (nonlinear_arith);
                power2::lemma2_to64_rest();
                assert(is_double(one));
                assert(one * 1 == one) by (nonlinear_arith);
                lemma_nearest_exact(one, 1, one);
            }
            return *self;
        }
        if self.exponent >= other.exponent {
            let gap: u32 = self.exponent - other.exponent;
            proof {
                lemma_scaled_twice(self.significand as nat, gap as nat, other.exponent as nat);
            }
            if gap > 64 {
                proof {
                    lemma_tiny_taken(*self, other);
                }
                *self
            } else {
                let high: u128 = shift_up(self.significand, gap);
                let low: u128 = other.significand as u128;
                proof {
                    lemma_compare(high as nat, low as nat, other.exponent as nat);
                    lemma_scaled_minus(high as nat, low as nat, other.exponent as nat);
                }
                Double::nearest_to(high - low, 1, other.exponent, 0)
            }
        } else {
            let gap: u32 = other.exponent - self.exponent;
            let low: u128 = lift(other.significand, gap);
            let high: u128 = self.significand as u128;
            proof {
                let full = scaled(other.significand as nat, gap as nat);
                lemma_scaled_twice(other.significand as nat, gap as nat, self.exponent as nat);
                lemma_compare(high as nat, full, self.exponent as nat);
                lemma_scaled_minus(high as nat, full, self.exponent as nat);
            }
            Double::nearest_to(high - low, 1, self.exponent, 0)
        }
    }

    /// Rounds up to a whole number, or to the greatest machine integer where that is less.
    pub(crate) fn round_up(&self) -> (whole: usize)
        ensures
            whole == rounded_up(self.units()),
    {
        let up: u128 = if self.exponent >= 1074 {
            let gap: u32 = self.exponent - 1074;
            proof {
                let value = scaled(self.significand as nat, gap as nat);
                power2::lemma_pow2_pos(1074);
                lemma_scaled_twice(self.significand as nat, gap as nat, 1074);
                lemma_ceiling_exact(value, power2::pow2(1074));
            }
            lift(self.significand, gap)
        } else {
            let gap: u32 = 1074 - self.exponent;
            proof {
                power2::lemma_pow2_pos(self.exponent as nat);
                power2::lemma_pow2_pos(gap as nat);
                power2::lemma_pow2_adds(gap as nat, self.exponent as nat);
                lemma_ceiling_scale(
                    self.significand as nat,
                    power2::pow2(gap as nat),
                    power2::pow2(self.exponent as nat),
                );
                lemma_scaled_one(gap as nat);
            }
            let divisor: u128 = lift(1, gap);
            let significand: u128 = self.significand as u128;
            if divisor > significand {
                proof {
                    lemma_ceiling_small(self.significand as nat, power2::pow2(gap as nat));
                }
                if significand == 0 {
                    0
                } else {
                    1
                }
            } else if significand % divisor == 0 {
                significand / divisor
            } else {
                proof {
                    lemma_ceiling(significand as nat, divisor as nat);
                }
                significand / divisor + 1
            }
        };
        if up < usize::MAX as u128 {
            up as usize
        } else {
            usize::MAX
        }
    }

    /// Whether this double is greater than another one.
    pub(crate) fn exceeds(&self, other: Double) -> (greater: bool)
        ensures
            greater == (self.units() > other.units()),
    {
        if self.exponent >= other.exponent {
            let gap: u32 = self.exponent - other.exponent;
            let lifted: u128 = lift(self.significand, gap);
            proof {
                lemma_compare(
                    scaled(self.significand as nat, gap as nat),
                    other.significand as nat,
                    other.exponent as nat,
                );
                lemma_scaled_twice(self.significand as nat, gap as nat, other.exponent as nat);
            }
            lifted > other.significand as u128
        } else {
            let gap: u32 = other.exponent - self.exponent;
            let lifted: u128 = lift(other.significand, gap);
            proof {
                lemma_compare(
                    self.significand as nat,
                    scaled(other.significand as nat, gap as nat),
                    self.exponent as nat,
                );
                lemma_scaled_twice(other.significand as nat, gap as nat, self.exponent as nat);
            }
            self.significand as u128 > lifted
        }
    }
}

/// Computes `significand * 2^exponent`, or any number beyond 64 bits where that is beyond them.
fn lift(significand: u64, exponent: u32) -> (lifted: u128)
    ensures
        lifted == scaled(significand as nat, exponent as nat) || (lifted > u64::MAX && scaled(
            significand as nat,
            exponent as nat,
        ) > u64::MAX),
{
    let mut lifted: u128 = significand as u128;
    let mut rest: u32 = exponent;
    while rest > 0 && lifted <= 0xffff_ffff_ffff_ffff
        invariant
            lifted <= 0x1_ffff_ffff_ffff_ffff,
            scaled(lifted as nat, rest as nat) == scaled(significand as nat, exponent as nat),
        decreases rest,
    {
        proof {
            lemma_shift(lifted as nat, rest as nat);
        }
        lifted = 2 * lifted;
        rest = rest - 1;
    }
    proof {
        lemma_scaled_zero(lifted as nat);
        lemma_scaled_up(lifted as nat, rest as nat);
    }
    lifted
}

/// Scaling both sides keeps the rounded quotient.
proof fn lemma_half_even_scale(num: nat, den: nat, factor: nat)
    requires
        den > 0,
        factor > 0,
    ensures
        half_even(num * factor, den * factor) == half_even(num, den),
        den * factor > 0,
{
    let whole = num / den;
    let rest = num % den;
    let big = (den * factor) as int;
    vstd::arithmetic::div_mod::lemma_fundamental_div_mod(num as int, den as int);
    assert(big > 0 && 0 <= rest * factor < big && whole * big + rest * factor == num * factor
        && ((2 * rest) * factor < big <==> 2 * rest < den) && ((2 * rest) * factor == big <==> 2
        * rest == den) && (2 * rest) * factor == 2 * (rest * factor)) by (nonlinear_arith)
        requires
            big == den * factor,
            den > 0,
            factor > 0,
            0 <= rest < den,
            num == den * whole + rest,
    ;
    vstd::arithmetic::div_mod::lemma_fundamental_div_mod_converse(
        (num * factor) as int,
        big,
        whole as int,
        (rest * factor) as int,
    );
}

/// There is one grain only.
proof fn lemma_grain_unique(num: nat, den: nat, one: nat, other: nat)
    requires
        is_grain(num, den, one),
        is_grain(num, den, other),
    ensures
        one == other,
{
    if one < other {
        lemma_power_mono(den, 53 + one, 52 + other);
    }
    if other < one {
        lemma_power_mono(den, 53 + other, 52 + one);
    }
}

/// Higher powers make higher multiples.
proof fn lemma_power_mono(factor: nat, low: nat, high: nat)
    requires
        low <= high,
    ensures
        factor * power2::pow2(low) <= factor * power2::pow2(high),
{
    if low < high {
        power2::lemma_pow2_strictly_increases(low, high);
    }
    let a = power2::pow2(low);
    let b = power2::pow2(high);
    assert(factor * a <= factor * b) by (nonlinear_arith)
        requires
            a <= b,
    ;
}

/// With its grain at hand, the nearest double can be written out.
proof fn lemma_nearest_at(num: nat, den: nat, grain: nat)
    requires
        is_grain(num, den, grain),
    ensures
        nearest(num, den) == half_even(num, den * power2::pow2(grain)) * power2::pow2(grain),
{
    let chosen = choose|grain: nat| is_grain(num, den, grain);
    lemma_grain_unique(num, den, grain, chosen);
}

/// Every quotient has a grain.
proof fn lemma_grain_exists(num: nat, den: nat) -> (grain: nat)
    requires
        den > 0,
    ensures
        is_grain(num, den, grain),
{
    lemma_grain_from(num, den, num)
}

/// A quotient below 2^(53 + limit) has a grain up to that limit.
proof fn lemma_grain_from(num: nat, den: nat, limit: nat) -> (grain: nat)
    requires
        den > 0,
        num <= limit || num < den * power2::pow2(53 + limit),
    ensures
        is_grain(num, den, grain),
    decreases limit,
{
    if num >= den * power2::pow2(53 + limit) {
        let p = power2::pow2(53 + limit);
        lemma_power_exceeds(53 + limit);
        assert(den * p >= p) by (nonlinear_arith)
            requires
                den > 0,
        ;
    }
    if limit == 0 || num >= den * power2::pow2(52 + limit) {
        limit
    } else {
        lemma_grain_from(num, den, (limit - 1) as nat)
    }
}

/// A power of two exceeds its exponent.
proof fn lemma_power_exceeds(exponent: nat)
    ensures
        power2::pow2(exponent) > exponent,
    decreases exponent,
{
    if exponent == 0 {
        power2::lemma2_to64();
    } else {
        lemma_power_exceeds((exponent - 1) as nat);
        power2::lemma_pow2_unfold(exponent);
    }
}

/// Scaling both sides keeps the nearest double.
proof fn lemma_nearest_scale(num: nat, den: nat, factor: nat)
    requires
        den > 0,
        factor > 0,
    ensures
        nearest(num * factor, den * factor) == nearest(num, den),
{
    let grain = lemma_grain_exists(num, den);
    let p = power2::pow2(53 + grain);
    let q = power2::pow2(52 + grain);
    let r = power2::pow2(grain);
    power2::lemma_pow2_pos(grain);
    assert(den * factor * p == (den * p) * factor && den * factor * q == (den * q) * factor && den
        * factor * r == (den * r) * factor && den * r > 0) by (nonlinear_arith)
        requires
            den > 0,
            r > 0,
    ;
    let low = den * p;
    let high = den * q;
    assert(num < low ==> num * factor < low * factor) by (nonlinear_arith)
        requires
            factor > 0,
    ;
    assert(num >= high ==> num * factor >= high * factor) by (nonlinear_arith);
    lemma_nearest_at(num * factor, den * factor, grain);
    lemma_nearest_at(num, den, grain);
    lemma_half_even_scale(num, den * r, factor);
}

/// A quotient of less than half a unit is rounded to nothing.
proof fn lemma_nearest_none(num: nat, den: nat)
    requires
        2 * num < den,
    ensures
        nearest(num, den) == 0,
{
    power2::lemma_pow2_pos(53);
    power2::lemma2_to64();
    let p = power2::pow2(53);
    assert(den * p >= den) by (nonlinear_arith)
        requires
            p >= 1,
    ;
    assert(den * 1 == den) by (nonlinear_arith);
    lemma_nearest_at(num, den, 0);
    vstd::arithmetic::div_mod::lemma_fundamental_div_mod_converse(num as int, den as int, 0, num as int);
}

/// Computes `significand * 2^exponent` where 128 bits hold it.
fn shift_up(significand: u64, exponent: u32) -> (shifted: u128)
    requires
        significand <= 0x20_0000_0000_0000,
        exponent <= 64,
    ensures
        shifted == scaled(significand as nat, exponent as nat),
        shifted <= 0x20_0000_0000_0000_0000_0000_0000_0000,
{
    let mut shifted: u128 = significand as u128;
    let mut rest: u32 = exponent;
    let ghost top: nat = 0x20_0000_0000_0000_0000_0000_0000_0000;
    proof {
        power2::lemma2_to64();
        let p = power2::pow2(64);
        lemma_power_mono(0x20_0000_0000_0000, exponent as nat, 64);
        let q = power2::pow2(exponent as nat);
        assert(significand * q <= 0x20_0000_0000_0000 * q) by (nonlinear_arith)
            requires
                significand <= 0x20_0000_0000_0000,
        ;
    }
    while rest > 0
        invariant
            scaled(shifted as nat, rest as nat) == scaled(significand as nat, exponent as nat),
            scaled(significand as nat, exponent as nat) <= top,
            top == 0x20_0000_0000_0000_0000_0000_0000_0000,
        decreases rest,
    {
        proof {
            lemma_shift(shifted as nat, rest as nat);
            lemma_scaled_up((2 * shifted) as nat, (rest - 1) as nat);
        }
        shifted = 2 * shifted;
        rest = rest - 1;
    }
    proof {
        lemma_scaled_zero(shifted as nat);
    }
    shifted
}

/// Scaling a difference is taking the difference of what is scaled.
proof fn lemma_scaled_minus(one: nat, other: nat, exponent: nat)
    requires
        one >= other,
    ensures
        scaled((one - other) as nat, exponent) == scaled(one, exponent) - scaled(other, exponent),
{
    let p = power2::pow2(exponent);
    assert((one - other) * p == one * p - other * p) by (nonlinear_arith);
}

/// Scaling one gives the power of two.
proof fn lemma_scaled_one(exponent: nat)
    ensures
        scaled(1, exponent) == power2::pow2(exponent),
{
    let p = power2::pow2(exponent);
    assert(1 * p == p) by (nonlinear_arith);
}

/// Taking a double from one with an exponent much higher changes nothing, once rounded.
proof fn lemma_tiny_taken(double: Double, tiny: Double)
    requires
        double.is_moderate(),
        tiny.is_moderate(),
        double.exponent > tiny.exponent + 64,
        double.units() > tiny.units(),
    ensures
        difference(double.units(), tiny.units()) == double.units(),
{
    let top = double.exponent as nat;
    let base = power2::pow2((top - 2) as nat);
    let m = double.significand as nat;
    let t = tiny.units();
    let d = (double.units() - t) as nat;
    power2::lemma2_to64_rest();
    power2::lemma_pow2_pos((top - 2) as nat);
    power2::lemma_pow2_unfold(top);
    power2::lemma_pow2_unfold((top - 1) as nat);
    lemma_power_mono(1, 53 + tiny.exponent as nat, (top - 3) as nat);
    power2::lemma_pow2_unfold((top - 2) as nat);
    power2::lemma_pow2_adds(53, tiny.exponent as nat);
    let low = power2::pow2(tiny.exponent as nat);
    let ts = tiny.significand as nat;
    assert(ts * low <= 0x20_0000_0000_0000 * low) by (nonlinear_arith)
        requires
            ts <= 0x20_0000_0000_0000,
    ;
    assert(2 * t <= base);
    assert(double.units() == m * (4 * base));
    assert(m * (4 * base) == 4 * (m * base)) by (nonlinear_arith);
    if m == 0 {
        assert(0 * base == 0) by (nonlinear_arith);
    }
    assert(m * base >= 0x10_0000_0000_0000 * base && m * base <= 0x20_0000_0000_0000 * base)
        by (nonlinear_arith)
        requires
            0x10_0000_0000_0000 <= m <= 0x20_0000_0000_0000,
    ;
    let grain = lemma_grain_exists(d, 1);
    let g = power2::pow2(grain);
    power2::lemma_pow2_adds(53, grain);
    power2::lemma_pow2_adds(52, grain);
    power2::lemma_pow2_adds(53, top);
    power2::lemma_pow2_adds(52, (top + 1) as nat);
    power2::lemma_pow2_adds(53, (top - 2) as nat);
    power2::lemma_pow2_unfold((top + 1) as nat);
    if t == 0 {
        assert(is_double(double.units()));
        let u = double.units();
        assert(u * 1 == u) by (nonlinear_arith);
        lemma_nearest_exact(u, 1, u);
    } else {
        if grain > top {
            lemma_power_mono(1, 52 + top + 1, 52 + grain);
        }
        if grain + 1 < top {
            lemma_power_mono(1, 53 + grain, (53 + top - 2) as nat);
        }
        assert(grain == top || grain + 1 == top);
        lemma_nearest_at(d, 1, grain);
        assert(1 * g == g) by (nonlinear_arith);
        let up = half_even(d, g);
        lemma_half_even_bounds(d, g);
        let steps: nat = if grain == top {
            m
        } else {
            2 * m
        };
        assert(steps * g == double.units()) by (nonlinear_arith)
            requires
                double.units() == m * (4 * base),
                (steps == m && g == 4 * base) || (steps == 2 * m && g == 2 * base),
        ;
        assert(2 * up * g == 2 * (up * g)) by (nonlinear_arith);
        assert(up >= steps) by (nonlinear_arith)
            requires
                up * g + g > steps * g,
                g > 0,
        ;
        lemma_half_even_mono(d, g, steps);
        assert(is_double(double.units()));
    }
}

/// Whole numbers bound a rounded-up difference where they bound the difference, and a
/// difference that is not zero is not rounded up to zero.
pub proof fn lemma_rounded_difference(one: nat, other: nat, bound: nat)
    requires
        one >= other,
        bound <= power2::pow2(53),
        bound <= usize::MAX,
    ensures
        one - other <= bound * power2::pow2(1074) ==> rounded_up(difference(one, other)) <= bound,
        one - other >= bound * power2::pow2(1074) ==> rounded_up(difference(one, other)) >= bound,
        one > other ==> rounded_up(difference(one, other)) > 0,
{
    let p = power2::pow2(1074);
    let gap = (one - other) as nat;
    let near = difference(one, other);
    power2::lemma_pow2_pos(1074);
    assert(bound * p == scaled(bound, 1074));
    let units = bound * p;
    assert(units * 1 == units) by (nonlinear_arith);
    lemma_nearest_mono(gap, 1, units);
    lemma_ceiling_mono(near, p, bound);
    lemma_power_is_double(0);
    power2::lemma2_to64();
    lemma_nearest_mono(gap, 1, 1);
    assert(0 * p == 0) by (nonlinear_arith);
    lemma_ceiling_mono(near, p, 0);
}

/// A rounded-up quotient is the least whole number that is not below the quotient.
pub proof fn lemma_ceiling(dividend: nat, divisor: nat)
    requires
        divisor > 0,
    ensures
        dividend <= ceiling(dividend, divisor) * divisor < dividend + divisor,
        ceiling(dividend, divisor) <= dividend,
{
    let whole = dividend / divisor;
    let rest = dividend % divisor;
    let up = ceiling(dividend, divisor);
    vstd::arithmetic::div_mod::lemma_fundamental_div_mod(dividend as int, divisor as int);
    assert((whole + 1) * divisor == whole * divisor + divisor) by (nonlinear_arith);
    assert(divisor * whole == whole * divisor) by (nonlinear_arith);
    assert(up <= dividend) by (nonlinear_arith)
        requires
            up * divisor < dividend + divisor,
            divisor > 0,
            dividend == 0 ==> up == 0,
            up >= 0,
            dividend >= 0,
    ;
}

/// A whole number bounds a rounded-up quotient where it bounds the quotient.
pub proof fn lemma_ceiling_mono(dividend: nat, divisor: nat, bound: nat)
    requires
        divisor > 0,
    ensures
        dividend <= bound * divisor ==> ceiling(dividend, divisor) <= bound,
        dividend >= bound * divisor ==> ceiling(dividend, divisor) >= bound,
        dividend > bound * divisor ==> ceiling(dividend, divisor) > bound,
{
    let up = ceiling(dividend, divisor);
    lemma_ceiling(dividend, divisor);
    assert(dividend <= bound * divisor ==> up <= bound) by (nonlinear_arith)
        requires
            up * divisor < dividend + divisor,
            divisor > 0,
    ;
    assert(dividend >= bound * divisor ==> up >= bound) by (nonlinear_arith)
        requires
            up * divisor >= dividend,
            divisor > 0,
    ;
    assert(dividend > bound * divisor ==> up > bound) by (nonlinear_arith)
        requires
            up * divisor >= dividend,
            divisor > 0,
    ;
}

/// A multiple has a whole quotient.
proof fn lemma_ceiling_exact(value: nat, divisor: nat)
    requires
        divisor > 0,
    ensures
        ceiling(value * divisor, divisor) == value,
{
    lemma_ceiling_mono(value * divisor, divisor, value);
}

/// Scaling both sides keeps the rounded-up quotient.
proof fn lemma_ceiling_scale(dividend: nat, divisor: nat, factor: nat)
    requires
        divisor > 0,
        factor > 0,
    ensures
        ceiling(dividend * factor, divisor * factor) == ceiling(dividend, divisor),
{
    let up = ceiling(dividend, divisor);
    let big = divisor * factor;
    lemma_ceiling(dividend, divisor);
    assert(big > 0 && dividend * factor <= up * big && up * big < dividend * factor + big)
        by (nonlinear_arith)
        requires
            big == divisor * factor,
            dividend <= up * divisor,
            up * divisor < dividend + divisor,
            divisor > 0,
            factor > 0,
    {
        assert(up * big == (up * divisor) * factor);
        assert((dividend + divisor) * factor == dividend * factor + big);
    }
    lemma_ceiling(dividend * factor, big);
    let other = ceiling(dividend * factor, big);
    assert(other == up) by (nonlinear_arith)
        requires
            dividend * factor <= other * big,
            other * big < dividend * factor + big,
            dividend * factor <= up * big,
            up * big < dividend * factor + big,
            big > 0,
    ;
}

/// A quotient up to one is rounded up to one, unless it is zero.
proof fn lemma_ceiling_small(dividend: nat, divisor: nat)
    requires
        divisor > 0,
        dividend <= divisor,
    ensures
        ceiling(dividend, divisor) == if dividend == 0 {
            0nat
        } else {
            1
        },
{
    assert(1 * divisor == divisor && 0 * divisor == 0) by (nonlinear_arith);
    lemma_ceiling_mono(dividend, divisor, 1);
    lemma_ceiling_mono(dividend, divisor, 0);
}

/// Scaling twice is scaling once.
proof fn lemma_scaled_twice(significand: nat, one: nat, other: nat)
    ensures
        scaled(scaled(significand, one), other) == scaled(significand, one + other),
{
    power2::lemma_pow2_adds(one, other);
    let p = power2::pow2(one);
    let q = power2::pow2(other);
    assert((significand * p) * q == significand * (p * q)) by (nonlinear_arith);
}

/// Scaling alike keeps the order.
proof fn lemma_compare(one: nat, other: nat, exponent: nat)
    ensures
        scaled(one, exponent) > scaled(other, exponent) <==> one > other,
{
    power2::lemma_pow2_pos(exponent);
    let p = power2::pow2(exponent);
    assert(one * p > other * p <==> one > other) by (nonlinear_arith)
        requires
            p > 0,
    ;
}

/// Rounding gives a double.
pub proof fn lemma_nearest_is_double(num: nat, den: nat)
    requires
        den > 0,
    ensures
        is_double(nearest(num, den)),
{
    let grain = lemma_grain_exists(num, den);
    let unit = den * power2::pow2(grain);
    let significand = half_even(num, unit);
    lemma_nearest_at(num, den, grain);
    lemma_frame(den, grain);
    lemma_half_even_bounds(num, unit);
    assert(significand <= power2::pow2(53)) by (nonlinear_arith)
        requires
            2 * significand * unit <= 2 * num + unit,
            num < unit * power2::pow2(53),
            unit > 0,
    ;
    assert(nearest(num, den) == scaled(significand, grain));
}

/// The multiples of a grain, and the powers around it.
proof fn lemma_frame(den: nat, grain: nat)
    requires
        den > 0,
    ensures
        den * power2::pow2(grain) > 0,
        den * power2::pow2(53 + grain) == (den * power2::pow2(grain)) * power2::pow2(53),
        den * power2::pow2(52 + grain) == (den * power2::pow2(grain)) * power2::pow2(52),
{
    power2::lemma_pow2_pos(grain);
    power2::lemma_pow2_adds(53, grain);
    power2::lemma_pow2_adds(52, grain);
    let p = power2::pow2(grain);
    let a = power2::pow2(53);
    let b = power2::pow2(52);
    assert(den * p > 0 && den * (a * p) == (den * p) * a && den * (b * p) == (den * p) * b)
        by (nonlinear_arith)
        requires
            den > 0,
            p > 0,
    ;
}

/// A rounded quotient is at most half away from the quotient.
proof fn lemma_half_even_bounds(num: nat, den: nat)
    requires
        den > 0,
    ensures
        2 * half_even(num, den) * den <= 2 * num + den,
        2 * num <= 2 * half_even(num, den) * den + den,
{
    let whole = num / den;
    let rest = num % den;
    vstd::arithmetic::div_mod::lemma_fundamental_div_mod(num as int, den as int);
    assert(2 * whole * den == 2 * (den * whole)) by (nonlinear_arith);
    assert(2 * (whole + 1) * den == 2 * (den * whole) + 2 * den) by (nonlinear_arith);
}

/// A quotient not below a whole number is not rounded below it, and one not above it is not
/// rounded above it.
proof fn lemma_half_even_mono(num: nat, den: nat, bound: nat)
    requires
        den > 0,
    ensures
        num >= bound * den ==> half_even(num, den) >= bound,
        num <= bound * den ==> half_even(num, den) <= bound,
{
    let up = half_even(num, den);
    lemma_half_even_bounds(num, den);
    assert(num >= bound * den ==> up >= bound) by (nonlinear_arith)
        requires
            2 * num <= 2 * up * den + den,
            den > 0,
    ;
    assert(num <= bound * den ==> up <= bound) by (nonlinear_arith)
        requires
            2 * up * den <= 2 * num + den,
            den > 0,
    ;
}

/// A quotient not below a double is not rounded below it, and one not above it is not
/// rounded above it.
pub proof fn lemma_nearest_mono(num: nat, den: nat, double: nat)
    requires
        den > 0,
        is_double(double),
    ensures
        num >= double * den ==> nearest(num, den) >= double,
        num <= double * den ==> nearest(num, den) <= double,
{
    let (significand, exponent) = choose|significand: nat, exponent: nat|
        significand <= power2::pow2(53) && double == #[trigger] scaled(significand, exponent);
    let grain = lemma_grain_exists(num, den);
    let p = power2::pow2(grain);
    let unit = den * p;
    lemma_nearest_at(num, den, grain);
    lemma_frame(den, grain);
    power2::lemma_pow2_pos(grain);
    let up = half_even(num, unit);
    if exponent >= grain {
        let steps = scaled(significand, (exponent - grain) as nat);
        power2::lemma_pow2_adds((exponent - grain) as nat, grain);
        let r = power2::pow2((exponent - grain) as nat);
        assert(significand * (r * p) == (significand * r) * p) by (nonlinear_arith);
        assert(double == steps * p);
        lemma_step_bounds(num, den, p, steps, up);
    } else {
        let edge = power2::pow2(52);
        let q = power2::pow2(exponent);
        power2::lemma_pow2_adds(53, exponent);
        power2::lemma_pow2_adds(52, grain);
        lemma_power_mono(1, 53 + exponent, 52 + grain);
        let bits = power2::pow2(53);
        assert(significand * q <= bits * q) by (nonlinear_arith)
            requires
                significand <= bits,
        ;
        assert(double <= edge * p);
        assert(num >= (edge * p) * den) by (nonlinear_arith)
            requires
                num >= (den * p) * edge,
        ;
        lemma_step_bounds(num, den, p, edge, up);
        assert(double * den <= (edge * p) * den) by (nonlinear_arith)
            requires
                double <= edge * p,
        ;
        if num <= double * den {
            assert(double == edge * p) by (nonlinear_arith)
                requires
                    (edge * p) * den <= double * den,
                    double <= edge * p,
                    den > 0,
            ;
        }
    }
}

/// Multiples of a grain bound what is rounded to that grain.
proof fn lemma_step_bounds(num: nat, den: nat, grain: nat, steps: nat, up: nat)
    requires
        den * grain > 0,
        up == half_even(num, den * grain),
    ensures
        num >= (steps * grain) * den ==> up * grain >= steps * grain,
        num <= (steps * grain) * den ==> up * grain <= steps * grain,
{
    lemma_half_even_mono(num, den * grain, steps);
    assert((steps * grain) * den == steps * (den * grain)) by (nonlinear_arith);
    assert(up >= steps ==> up * grain >= steps * grain) by (nonlinear_arith);
    assert(up <= steps ==> up * grain <= steps * grain) by (nonlinear_arith);
}

/// A double is rounded to itself.
pub proof fn lemma_nearest_exact(num: nat, den: nat, double: nat)
    requires
        den > 0,
        is_double(double),
        num == double * den,
    ensures
        nearest(num, den) == double,
{
    lemma_nearest_mono(num, den, double);
}

/// Whole numbers up to 2^53 are doubles.
pub proof fn lemma_converted_exact(value: nat)
    requires
        value <= power2::pow2(53),
    ensures
        converted(value) == value * power2::pow2(1074),
        is_double(converted(value)),
{
    assert(value * power2::pow2(1074) == scaled(value, 1074));
    let units = scaled(value, 1074);
    assert(units * 1 == units) by (nonlinear_arith);
    lemma_nearest_exact(units, 1, units);
}

/// What is not zero is not converted to zero.
pub proof fn lemma_converted_positive(value: nat)
    requires
        value > 0,
    ensures
        converted(value) > 0,
{
    power2::lemma_pow2_pos(1074);
    power2::lemma2_to64_rest();
    let p = power2::pow2(1074);
    assert(value * p >= 1) by (nonlinear_arith)
        requires
            value > 0,
            p > 0,
    ;
    lemma_scaled_zero(1);
    assert(is_double(1)) by {
        assert(1 == scaled(1, 0));
    }
    lemma_nearest_mono(value * p, 1, 1);
}

/// An average of numbers that are doubles is rounded once only.
proof fn lemma_average_once(partitions: nat, total: nat)
    requires
        0 < partitions <= power2::pow2(53),
        total <= power2::pow2(53),
    ensures
        average(partitions, total) == nearest(total * power2::pow2(1074), partitions),
{
    lemma_converted_exact(total);
    lemma_converted_exact(partitions);
    power2::lemma_pow2_pos(1074);
    lemma_nearest_scale(total * power2::pow2(1074), partitions, power2::pow2(1074));
}

/// A load that is not above the average is not above the average in doubles.
pub proof fn lemma_up_to_average(load: nat, partitions: nat, total: nat)
    requires
        0 < partitions <= power2::pow2(53),
        total <= power2::pow2(53),
        load * partitions <= total,
    ensures
        converted(load) <= average(partitions, total),
{
    let p = power2::pow2(1074);
    assert(load <= total) by (nonlinear_arith)
        requires
            load * partitions <= total,
            partitions > 0,
    ;
    lemma_average_once(partitions, total);
    lemma_converted_exact(load);
    assert(total * p >= (load * p) * partitions) by (nonlinear_arith)
        requires
            load * partitions <= total,
    ;
    lemma_nearest_mono(total * p, partitions, load * p);
}

/// A load that is not below the average is not below the average in doubles.
pub proof fn lemma_from_average(load: nat, partitions: nat, total: nat)
    requires
        0 < partitions <= power2::pow2(53),
        total <= power2::pow2(53),
        load <= power2::pow2(53),
        load * partitions >= total,
    ensures
        converted(load) >= average(partitions, total),
{
    let p = power2::pow2(1074);
    lemma_average_once(partitions, total);
    lemma_converted_exact(load);
    assert(total * p <= (load * p) * partitions) by (nonlinear_arith)
        requires
            load * partitions >= total,
    ;
    lemma_nearest_mono(total * p, partitions, load * p);
}

/// An average in doubles differs from the average by one part in 2^53 at most.
pub proof fn lemma_average_close(partitions: nat, total: nat)
    requires
        0 < partitions <= power2::pow2(53),
        0 < total <= power2::pow2(53),
    ensures
        average(partitions, total) * partitions * power2::pow2(53) >= (power2::pow2(53) - 1) * (total
            * power2::pow2(1074)),
        average(partitions, total) * partitions * power2::pow2(53) <= (power2::pow2(53) + 1) * (total
            * power2::pow2(1074)),
{
    let p = power2::pow2(1074);
    let edge = power2::pow2(52);
    let num = total * p;
    let near = average(partitions, total);
    lemma_average_once(partitions, total);
    let grain = lemma_grain_exists(num, partitions);
    let g = power2::pow2(grain);
    let unit = partitions * g;
    let up = half_even(num, unit);
    lemma_nearest_at(num, partitions, grain);
    lemma_frame(partitions, grain);
    lemma_half_even_bounds(num, unit);
    power2::lemma_pow2_unfold(53);
    if grain == 0 {
        power2::lemma2_to64();
        power2::lemma_pow2_adds(53, 52);
        lemma_power_mono(1, 105, 1074);
        assert(num >= unit * edge) by (nonlinear_arith)
            requires
                num == total * p,
                total > 0,
                p >= (2 * edge) * edge,
                unit == partitions * g,
                g == 1,
                partitions <= 2 * edge,
        {
            assert(unit == partitions);
            assert(unit * edge <= (2 * edge) * edge);
            assert(total * p >= p);
        }
    }
    assert(near * partitions * (2 * edge) >= (2 * edge - 1) * num) by (nonlinear_arith)
        requires
            2 * num <= 2 * up * unit + unit,
            num >= unit * edge,
            near == up * g,
            unit == partitions * g,
            edge > 0,
    {
        assert(up * unit == near * partitions);
        assert(2 * num * edge <= 2 * (near * partitions) * edge + unit * edge);
    }
    assert(near * partitions * (2 * edge) <= (2 * edge + 1) * num) by (nonlinear_arith)
        requires
            2 * up * unit <= 2 * num + unit,
            num >= unit * edge,
            near == up * g,
            unit == partitions * g,
            edge > 0,
    {
        assert(up * unit == near * partitions);
        assert(2 * (near * partitions) * edge <= 2 * num * edge + unit * edge);
    }
}

/// Rounding a number of units takes away one part in 2^53 at most.
pub proof fn lemma_nearest_close(units: nat)
    ensures
        nearest(units, 1) * power2::pow2(53) >= (power2::pow2(53) - 1) * units,
{
    let grain = lemma_grain_exists(units, 1);
    let g = power2::pow2(grain);
    let edge = power2::pow2(52);
    lemma_nearest_at(units, 1, grain);
    lemma_frame(1, grain);
    assert(1 * g == g) by (nonlinear_arith);
    let up = half_even(units, g);
    lemma_half_even_bounds(units, g);
    power2::lemma_pow2_unfold(53);
    power2::lemma_pow2_pos(52);
    if grain == 0 {
        power2::lemma2_to64();
        lemma_half_even_mono(units, 1, units);
        assert(units * 1 == units && up * 1 == up) by (nonlinear_arith);
        assert(units * (2 * edge) >= (2 * edge - 1) * units) by (nonlinear_arith);
    } else {
        let near = up * g;
        assert(near * (2 * edge) >= (2 * edge - 1) * units) by (nonlinear_arith)
            requires
                2 * units <= 2 * up * g + g,
                units >= g * edge,
                near == up * g,
                edge > 0,
        {
            assert(2 * units * edge <= 2 * near * edge + g * edge);
        }
    }
}

/// Whole numbers bound the average in doubles where they bound the average.
pub proof fn lemma_average_bounds(whole: nat, partitions: nat, total: nat)
    requires
        0 < partitions <= u64::MAX,
        total < power2::pow2(53),
        whole <= power2::pow2(53),
    ensures
        whole * partitions >= total ==> average(partitions, total) <= whole * power2::pow2(1074),
        whole * partitions <= total ==> average(partitions, total) >= whole * power2::pow2(1074),
{
    let p = power2::pow2(1074);
    lemma_converted_exact(whole);
    if partitions <= power2::pow2(53) {
        if whole * partitions >= total {
            lemma_from_average(whole, partitions, total);
        }
        if whole * partitions <= total {
            lemma_up_to_average(whole, partitions, total);
        }
    } else {
        lemma_average_of_many(partitions, total);
        if whole > 0 {
            assert(whole * partitions >= partitions && whole * p >= p) by (nonlinear_arith)
                requires
                    whole >= 1,
            ;
        } else {
            assert(0 * partitions == 0 && 0 * p == 0) by (nonlinear_arith);
        }
    }
}

/// A load below `numerator / denominator` of the average is not above that multiple of the
/// average in doubles, as long as the numbers are small enough.
pub proof fn lemma_below_multiple(
    load: nat,
    partitions: nat,
    total: nat,
    numerator: nat,
    denominator: nat,
)
    requires
        0 < partitions <= power2::pow2(53),
        0 < total <= power2::pow2(53),
        load <= power2::pow2(53),
        numerator * total <= power2::pow2(53),
        denominator * (load * partitions) < numerator * total,
    ensures
        converted(load) * denominator <= numerator * average(partitions, total),
{
    let p = power2::pow2(1074);
    let bits = power2::pow2(53);
    let near = average(partitions, total);
    lemma_average_close(partitions, total);
    lemma_converted_exact(load);
    power2::lemma_pow2_pos(53);
    let weight = load * partitions;
    let goal = (load * p) * denominator;
    let most = numerator * total;
    let scaled_average = near * partitions * bits;
    let parts = (bits - 1) * (total * p);
    assert(numerator * scaled_average >= numerator * parts) by (nonlinear_arith)
        requires
            scaled_average >= parts,
    ;
    assert(numerator * parts == (bits * most - most) * p) by (nonlinear_arith)
        requires
            parts == (bits - 1) * (total * p),
            most == numerator * total,
    ;
    assert(bits * most - most >= bits * (denominator * weight)) by (nonlinear_arith)
        requires
            most <= bits,
            denominator * weight + 1 <= most,
            bits > 0,
    {
        assert(bits * most >= bits * (denominator * weight + 1));
        assert(bits * (denominator * weight + 1) == bits * (denominator * weight) + bits);
    }
    let low = bits * (denominator * weight);
    let high = bits * most - most;
    assert(high * p >= low * p) by (nonlinear_arith)
        requires
            high >= low,
            p >= 0,
    ;
    assert(low * p == goal * (partitions * bits)) by (nonlinear_arith)
        requires
            low == bits * (denominator * weight),
            weight == load * partitions,
            goal == (load * p) * denominator,
    ;
    assert(numerator * scaled_average == (numerator * near) * (partitions * bits))
        by (nonlinear_arith)
        requires
            scaled_average == near * partitions * bits,
    ;
    let scale = partitions * bits;
    let top = numerator * near;
    assert(scale > 0) by (nonlinear_arith)
        requires
            scale == partitions * bits,
            partitions > 0,
            bits > 0,
    ;
    assert(goal <= top) by (nonlinear_arith)
        requires
            goal * scale <= top * scale,
            scale > 0,
    ;
}

/// Scaled-up powers of two are doubles.
proof fn lemma_power_is_double(exponent: nat)
    ensures
        is_double(power2::pow2(exponent)),
{
    power2::lemma_pow2_pos(53);
    let p = power2::pow2(exponent);
    assert(1 * p == p) by (nonlinear_arith);
    assert(p == scaled(1, exponent));
}

/// With more partitions than doubles can count, and fewer keys than that, the average in
/// doubles is not zero unless there are no keys, and it is not more than one.
pub proof fn lemma_average_of_many(partitions: nat, total: nat)
    requires
        power2::pow2(53) <= partitions <= u64::MAX,
        total <= power2::pow2(53),
    ensures
        total == 0 ==> average(partitions, total) == 0,
        total > 0 ==> average(partitions, total) > 0,
        average(partitions, total) <= power2::pow2(1074),
{
    let p = power2::pow2(1074);
    let bits = power2::pow2(53);
    let wide = power2::pow2(64);
    let den = converted(partitions);
    power2::lemma_pow2_pos(53);
    power2::lemma_pow2_pos(1074);
    power2::lemma2_to64();
    lemma_converted_positive(partitions);
    lemma_converted_exact(total);
    lemma_power_is_double(53 + 1074);
    lemma_power_is_double(64 + 1074);
    power2::lemma_pow2_adds(53, 1074);
    power2::lemma_pow2_adds(64, 1074);
    assert(bits * p <= partitions * p <= wide * p) by (nonlinear_arith)
        requires
            bits <= partitions <= wide,
    ;
    lemma_nearest_mono(partitions * p, 1, bits * p);
    lemma_nearest_mono(partitions * p, 1, wide * p);
    assert(bits * p <= den <= wide * p);
    let num = (total * p) * p;
    assert(num <= p * den) by (nonlinear_arith)
        requires
            num == (total * p) * p,
            total <= bits,
            bits * p <= den,
    {
        assert(total * p <= bits * p);
    }
    lemma_power_is_double(1074);
    lemma_nearest_mono(num, den, p);
    if total > 0 {
        lemma_power_mono(1, 64, 1074);
        assert(num >= 1 * den) by (nonlinear_arith)
            requires
                num == (total * p) * p,
                total >= 1,
                wide <= p,
                den <= wide * p,
        {
            assert(total * p >= p);
            assert((total * p) * p >= p * p);
            assert(wide * p <= p * p);
        }
        lemma_power_is_double(0);
        lemma_nearest_mono(num, den, 1);
    } else {
        assert((0 * p) * p == 0) by (nonlinear_arith);
        assert(0 * den == 0) by (nonlinear_arith);
        assert(is_double(0)) by {
            assert(0 == scaled(0, 0));
        }
        lemma_nearest_exact(0, den, 0);
    }
}

/// What is not zero is converted to one or more, and zero to zero.
pub proof fn lemma_converted_from_one(value: nat)
    ensures
        value == 0 ==> converted(value) == 0,
        value > 0 ==> converted(value) >= power2::pow2(1074),
{
    let p = power2::pow2(1074);
    power2::lemma_pow2_pos(53);
    if value > 0 {
        lemma_power_is_double(1074);
        assert(value * p >= p * 1) by (nonlinear_arith)
            requires
                value > 0,
        ;
        lemma_nearest_mono(value * p, 1, p);
    } else {
        lemma_converted_exact(0);
        assert(0 * p == 0) by (nonlinear_arith);
    }
}

/// A load below the average is below the average in doubles.
pub proof fn lemma_below_average(load: nat, partitions: nat, total: nat)
    requires
        0 < partitions <= power2::pow2(53),
        total < power2::pow2(53),
        load * partitions < total,
    ensures
        converted(load) < average(partitions, total),
{
    let p = power2::pow2(1074);
    let num = total * p;
    assert(load <= total) by (nonlinear_arith)
        requires
            load * partitions <= total,
            partitions > 0,
    ;
    lemma_average_once(partitions, total);
    lemma_converted_exact(load);
    let grain = lemma_grain_exists(num, partitions);
    let g = power2::pow2(grain);
    let unit = partitions * g;
    let up = half_even(num, unit);
    lemma_nearest_at(num, partitions, grain);
    lemma_frame(partitions, grain);
    lemma_half_even_bounds(num, unit);
    power2::lemma_pow2_pos(1074);
    if up * g <= load * p {
        assert(unit >= 2 * p) by (nonlinear_arith)
            requires
                2 * num <= 2 * up * unit + unit,
                unit == partitions * g,
                up * g <= load * p,
                num == total * p,
                load * partitions + 1 <= total,
                p > 0,
                partitions > 0,
        {
            assert(up * unit == (up * g) * partitions);
            assert((up * g) * partitions <= (load * p) * partitions);
            assert((load * p) * partitions == (load * partitions) * p);
            assert(total * p >= (load * partitions + 1) * p);
            assert((load * partitions + 1) * p == (load * partitions) * p + p);
        }
        power2::lemma_pow2_unfold(53);
        let edge = power2::pow2(52);
        if grain == 0 {
            power2::lemma2_to64();
            lemma_power_mono(1, 53, 1074);
            assert(unit == partitions) by (nonlinear_arith)
                requires
                    unit == partitions * g,
                    g == 1,
            ;
        } else {
            assert(total >= 2 * edge) by (nonlinear_arith)
                requires
                    total * p >= unit * edge,
                    unit >= 2 * p,
                    p > 0,
                    edge >= 0,
            {
                assert(unit * edge >= (2 * p) * edge);
                assert((2 * p) * edge == (2 * edge) * p);
            }
        }
    }
}

/// Once the quotient of `num` and `den` has 53 bits, or has fewer and counts units, it needs
/// rounding to a whole number only.
proof fn lemma_at_grain(num: nat, den: nat, exponent: nat)
    requires
        den > 0,
        num < den * 0x20_0000_0000_0000,
        exponent == 0 || num >= den * 0x10_0000_0000_0000 || num == 0,
    ensures
        nearest(scaled(num, exponent), den) == scaled(half_even(num, den), exponent),
        num / den < 0x20_0000_0000_0000,
        num >= den * 0x10_0000_0000_0000 ==> num / den >= 0x10_0000_0000_0000,
        num == 0 ==> half_even(num, den) == 0,
{
    let p = power2::pow2(exponent);
    power2::lemma_pow2_pos(exponent);
    power2::lemma2_to64_rest();
    power2::lemma_pow2_adds(53, exponent);
    power2::lemma_pow2_adds(52, exponent);
    vstd::arithmetic::div_mod::lemma_fundamental_div_mod(num as int, den as int);
    let whole = num / den;
    assert(whole < 0x20_0000_0000_0000) by (nonlinear_arith)
        requires
            den * whole <= num,
            num < den * 0x20_0000_0000_0000,
            den > 0,
    ;
    let rest = num % den;
    assert(num >= den * 0x10_0000_0000_0000 ==> whole >= 0x10_0000_0000_0000) by (nonlinear_arith)
        requires
            num == den * whole + rest,
            rest < den,
            den > 0,
    ;
    if num == 0 {
        assert(0 * p == 0) by (nonlinear_arith);
        lemma_nearest_none(0, den);
        vstd::arithmetic::div_mod::lemma_fundamental_div_mod_converse(0, den as int, 0, 0);
    } else {
        let high = den * 0x20_0000_0000_0000;
        let low = den * 0x10_0000_0000_0000;
        assert(den * (0x20_0000_0000_0000 * p) == high * p && den * (0x10_0000_0000_0000 * p) == low
            * p) by (nonlinear_arith)
            requires
                high == den * 0x20_0000_0000_0000,
                low == den * 0x10_0000_0000_0000,
        ;
        assert(num < high ==> num * p < high * p) by (nonlinear_arith)
            requires
                p > 0,
        ;
        assert(num >= low ==> num * p >= low * p) by (nonlinear_arith)
            requires
                p > 0,
        ;
        lemma_nearest_at(num * p, den, exponent);
        lemma_half_even_scale(num, den, p);
    }
}

/// A common power of two cancels out.
proof fn lemma_cancel(num: nat, den: nat, up: nat, down: nat, common: nat)
    requires
        den > 0,
    ensures
        nearest(scaled(num, up + common), scaled(den, down + common)) == nearest(
            scaled(num, up),
            scaled(den, down),
        ),
{
    power2::lemma_pow2_adds(up, common);
    power2::lemma_pow2_adds(down, common);
    power2::lemma_pow2_pos(common);
    power2::lemma_pow2_pos(down);
    let p = power2::pow2(up);
    let q = power2::pow2(down);
    let c = power2::pow2(common);
    assert(num * (p * c) == (num * p) * c && den * (q * c) == (den * q) * c && den * q > 0)
        by (nonlinear_arith)
        requires
            den > 0,
            q > 0,
    ;
    lemma_nearest_scale(num * p, den * q, c);
}

/// One power of two less takes twice the significand.
proof fn lemma_shift(significand: nat, exponent: nat)
    requires
        exponent > 0,
    ensures
        scaled(2 * significand, (exponent - 1) as nat) == scaled(significand, exponent),
        scaled(significand, exponent) == 2 * scaled(significand, (exponent - 1) as nat),
{
    power2::lemma_pow2_unfold(exponent);
    let p = power2::pow2((exponent - 1) as nat);
    assert(significand * (2 * p) == (2 * significand) * p && significand * (2 * p) == 2 * (
    significand * p)) by (nonlinear_arith);
}

/// The zeroth power of two changes nothing.
proof fn lemma_scaled_zero(significand: nat)
    ensures
        scaled(significand, 0) == significand,
{
    power2::lemma2_to64();
    assert(significand * 1 == significand) by (nonlinear_arith);
}

/// Scaling never lowers.
proof fn lemma_scaled_up(significand: nat, exponent: nat)
    ensures
        scaled(significand, exponent) >= significand,
{
    power2::lemma_pow2_pos(exponent);
    let p = power2::pow2(exponent);
    assert(significand * p >= significand) by (nonlinear_arith)
        requires
            p >= 1,
    ;
}

/// An odd number of units times a power of two is a double where it has 53 bits at most, and
/// zero is one.
pub proof fn law_doubles(odd: nat, exponent: nat)
    requires
        odd % 2 == 1,
    ensures
        is_double(odd * power2::pow2(exponent)) <==> odd <= power2::pow2(53),
        is_double(0),
{
    let units = odd * power2::pow2(exponent);
    if odd <= power2::pow2(53) {
        assert(units == scaled(odd, exponent));
    }
    if is_double(units) {
        let (significand, other) = choose|significand: nat, other: nat|
            significand <= power2::pow2(53) && units == #[trigger] scaled(significand, other);
        lemma_odd_part(odd, exponent, significand, other);
    }
    power2::lemma_pow2_pos(53);
    lemma_scaled_zero(0);
    assert(is_double(0)) by {
        assert(0 == scaled(0, 0));
    }
}

/// No way to write a number as a multiple of a power of two takes less than its odd part.
proof fn lemma_odd_part(odd: nat, exponent: nat, significand: nat, other: nat)
    requires
        odd % 2 == 1,
        odd * power2::pow2(exponent) == significand * power2::pow2(other),
    ensures
        odd <= significand,
{
    let p = power2::pow2(exponent);
    let q = power2::pow2(other);
    power2::lemma_pow2_pos(exponent);
    power2::lemma_pow2_pos(other);
    if other > exponent {
        let r = power2::pow2((other - exponent) as nat);
        let half = power2::pow2((other - exponent - 1) as nat);
        power2::lemma_pow2_adds((other - exponent) as nat, exponent);
        power2::lemma_pow2_unfold((other - exponent) as nat);
        assert(odd == significand * r) by (nonlinear_arith)
            requires
                odd * p == significand * (r * p),
                p > 0,
        ;
        assert(significand * (2 * half) == 2 * (significand * half)) by (nonlinear_arith);
    } else {
        let r = power2::pow2((exponent - other) as nat);
        power2::lemma_pow2_adds((exponent - other) as nat, other);
        power2::lemma_pow2_pos((exponent - other) as nat);
        assert(significand == odd * r) by (nonlinear_arith)
            requires
                odd * (r * q) == significand * q,
                q > 0,
        ;
        assert(odd * r >= odd) by (nonlinear_arith)
            requires
                r >= 1,
        ;
    }
}

/// A double on the far side of a quotient is a multiple of its grain.
proof fn lemma_double_in_grain(num: nat, den: nat, grain: nat, double: nat)
    requires
        den > 0,
        is_grain(num, den, grain),
        is_double(double),
        grain == 0 || double >= power2::pow2(52 + grain),
    ensures
        exists|steps: nat| double == #[trigger] (steps * power2::pow2(grain)),
{
    let g = power2::pow2(grain);
    let (significand, exponent) = choose|significand: nat, exponent: nat|
        significand <= power2::pow2(53) && double == #[trigger] scaled(significand, exponent);
    if exponent >= grain {
        let r = power2::pow2((exponent - grain) as nat);
        power2::lemma_pow2_adds((exponent - grain) as nat, grain);
        assert(significand * (r * g) == (significand * r) * g) by (nonlinear_arith);
        assert(double == (significand * r) * g);
    } else {
        let q = power2::pow2(exponent);
        let bits = power2::pow2(53);
        power2::lemma_pow2_adds(53, exponent);
        power2::lemma_pow2_adds(52, grain);
        lemma_power_mono(1, 53 + exponent, 52 + grain);
        assert(significand * q <= bits * q) by (nonlinear_arith)
            requires
                significand <= bits,
        ;
        assert(double == power2::pow2(52) * g);
    }
}

/// No double is nearer to a quotient than the nearest one, which is a double. Where another
/// one is as near, the nearest one is an even multiple of the gap between the two.
pub proof fn law_nearest(num: nat, den: nat, double: nat)
    requires
        den > 0,
        is_double(double),
    ensures
        ({
            let near = nearest(num, den);
            let miss = vstd::math::abs(near * den - num);
            let other = vstd::math::abs(double * den - num);
            let gap = vstd::math::abs(near - double);
            &&& is_double(near)
            &&& miss <= other
            &&& miss == other && near != double ==> near % (2 * gap) == 0
        }),
{
    let near = nearest(num, den);
    let grain = lemma_grain_exists(num, den);
    let g = power2::pow2(grain);
    let unit = den * g;
    let up = half_even(num, unit);
    lemma_nearest_at(num, den, grain);
    lemma_nearest_is_double(num, den);
    lemma_frame(den, grain);
    lemma_half_even_bounds(num, unit);
    lemma_nearest_mono(num, den, double);
    power2::lemma_pow2_pos(grain);
    power2::lemma_pow2_adds(52, grain);
    let edge = power2::pow2(52);
    assert(near * den == up * unit) by (nonlinear_arith)
        requires
            near == up * g,
            unit == den * g,
    ;
    assert(2 * up * unit == 2 * (up * unit)) by (nonlinear_arith);
    if near != double {
        if double * den >= num && near * den < num {
            if grain > 0 {
                assert(double >= edge * g) by (nonlinear_arith)
                    requires
                        double * den >= num,
                        num >= (den * g) * edge,
                        den > 0,
                ;
            }
            lemma_double_in_grain(num, den, grain, double);
            let steps = choose|steps: nat| double == #[trigger] (steps * g);
            lemma_other_side(num, den, g, up, steps, double);
        } else if double * den <= num && near * den > num {
            if grain > 0 && double < edge * g {
                lemma_step_bounds(num, den, g, edge, up);
                assert(up * g >= edge * g) by {
                    assert(num >= (edge * g) * den) by (nonlinear_arith)
                        requires
                            num >= (den * g) * edge,
                    ;
                }
                lemma_far_below(num, den, g, up, edge, double);
            } else {
                lemma_double_in_grain(num, den, grain, double);
                let steps = choose|steps: nat| double == #[trigger] (steps * g);
                lemma_other_side(num, den, g, up, steps, double);
            }
        } else {
            assert(double * den != near * den) by (nonlinear_arith)
                requires
                    double != near,
                    den > 0,
            ;
            assert(near > double ==> near * den > double * den) by (nonlinear_arith)
                requires
                    den > 0,
            ;
            assert(near < double ==> near * den < double * den) by (nonlinear_arith)
                requires
                    den > 0,
            ;
        }
    }
}

/// Of the two multiples of a grain around a quotient the rounded one is no further, and the
/// even one where both are as near.
proof fn lemma_other_side(num: nat, den: nat, g: nat, up: nat, steps: nat, double: nat)
    requires
        den > 0,
        g > 0,
        up == half_even(num, den * g),
        double == steps * g,
        up * g != double,
        (double * den >= num && (up * g) * den < num) || (double * den <= num && (up * g) * den
            > num),
    ensures
        ({
            let near = up * g;
            let miss = vstd::math::abs(near * den - num);
            let other = vstd::math::abs(double * den - num);
            let gap = vstd::math::abs(near - double);
            &&& miss <= other
            &&& miss == other ==> near % (2 * gap) == 0
        }),
{
    let unit = den * g;
    let near = up * g;
    assert(unit > 0) by (nonlinear_arith)
        requires
            unit == den * g,
            den > 0,
            g > 0,
    ;
    lemma_half_even_bounds(num, unit);
    assert(near * den == up * unit && double * den == steps * unit) by (nonlinear_arith)
        requires
            near == up * g,
            double == steps * g,
            unit == den * g,
    ;
    assert(2 * up * unit == 2 * (up * unit)) by (nonlinear_arith);
    let whole = num / unit;
    let rest = num % unit;
    vstd::arithmetic::div_mod::lemma_fundamental_div_mod(num as int, unit as int);
    assert(unit * whole == whole * unit && (whole + 1) * unit == whole * unit + unit)
        by (nonlinear_arith);
    if near * den < num {
        assert(steps >= up + 1) by (nonlinear_arith)
            requires
                steps * unit > up * unit,
                unit > 0,
        ;
        assert(steps * unit >= up * unit + unit) by (nonlinear_arith)
            requires
                steps >= up + 1,
                unit > 0,
        ;
        if num - up * unit == steps * unit - num {
            assert(steps * unit <= up * unit + unit);
            assert(steps == up + 1) by (nonlinear_arith)
                requires
                    steps * unit == up * unit + unit,
                    unit > 0,
            ;
            assert(double == near + g) by (nonlinear_arith)
                requires
                    double == steps * g,
                    near == up * g,
                    steps == up + 1,
            ;
            assert(up == whole);
            lemma_even_multiple(up, g);
        }
    } else {
        assert(up >= steps + 1) by (nonlinear_arith)
            requires
                steps * unit < up * unit,
                unit > 0,
        ;
        assert(up * unit >= steps * unit + unit) by (nonlinear_arith)
            requires
                up >= steps + 1,
                unit > 0,
        ;
        if up * unit - num == num - steps * unit {
            assert(up == steps + 1) by (nonlinear_arith)
                requires
                    up * unit == steps * unit + unit,
                    unit > 0,
            ;
            assert(near == double + g) by (nonlinear_arith)
                requires
                    double == steps * g,
                    near == up * g,
                    up == steps + 1,
            ;
            assert(up == whole + 1);
            lemma_even_multiple(up, g);
        }
    }
}

/// An even multiple of a gap is a multiple of twice the gap.
proof fn lemma_even_multiple(up: nat, gap: nat)
    requires
        up % 2 == 0,
        gap > 0,
    ensures
        (up * gap) % (2 * gap) == 0,
{
    let half = up / 2;
    assert(up * gap == half * (2 * gap)) by (nonlinear_arith)
        requires
            up == 2 * half,
    ;
    vstd::arithmetic::div_mod::lemma_mod_multiples_basic(half as int, (2 * gap) as int);
}

/// What is below the lowest multiple of a grain that the quotient reaches is further from it.
proof fn lemma_far_below(num: nat, den: nat, g: nat, up: nat, edge: nat, double: nat)
    requires
        den > 0,
        g > 0,
        up == half_even(num, den * g),
        num >= (den * g) * edge,
        double < edge * g,
        (up * g) * den > num,
    ensures
        (up * g) * den - num < num - double * den,
{
    let unit = den * g;
    assert(unit > 0) by (nonlinear_arith)
        requires
            unit == den * g,
            den > 0,
            g > 0,
    ;
    lemma_half_even_bounds(num, unit);
    assert((up * g) * den == up * unit) by (nonlinear_arith)
        requires
            unit == den * g,
    ;
    assert(2 * up * unit == 2 * (up * unit)) by (nonlinear_arith);
    assert(up >= edge + 1) by (nonlinear_arith)
        requires
            up * unit > num,
            num >= unit * edge,
            unit > 0,
    ;
    assert(up * unit >= edge * unit + unit) by (nonlinear_arith)
        requires
            up >= edge + 1,
            unit > 0,
    ;
    assert(double * den < edge * unit) by (nonlinear_arith)
        requires
            double < edge * g,
            den > 0,
            unit == den * g,
    ;
}

/// Rounding up gives the least whole number that is not below, or the greatest machine
/// integer where that is less.
pub proof fn law_rounded_up(double: nat)
    ensures
        ({
            let whole = rounded_up(double);
            let one = power2::pow2(1074);
            &&& whole <= usize::MAX
            &&& whole < usize::MAX ==> double <= whole * one
            &&& whole > 0 ==> double > (whole - 1) * one
        }),
{
    let one = power2::pow2(1074);
    let whole = rounded_up(double);
    let up = ceiling(double, one);
    power2::lemma_pow2_pos(1074);
    lemma_ceiling(double, one);
    if whole > 0 {
        assert((whole - 1) * one <= (up - 1) * one) by (nonlinear_arith)
            requires
                whole <= up,
                one > 0,
        ;
        assert((up - 1) * one == up * one - one) by (nonlinear_arith);
    }
}

/// Whole numbers up to 2^53, averages and differences are converted and computed as the
/// rounded values of what they are.
pub proof fn law_computed_once_rounded(one: nat, other: nat)
    ensures
        converted(one) == nearest(one * power2::pow2(1074), 1),
        one <= power2::pow2(53) ==> converted(one) == one * power2::pow2(1074),
        average(one, other) == nearest(
            nearest(other * power2::pow2(1074), 1) * power2::pow2(1074),
            nearest(one * power2::pow2(1074), 1),
        ),
        product(one, other) == nearest(one * other, power2::pow2(1074)),
        one >= other ==> difference(one, other) == nearest((one - other) as nat, 1),
{
    if one <= power2::pow2(53) {
        lemma_converted_exact(one);
    }
}

/// Numbers that a machine integer and a double hold are counted.
pub proof fn law_is_counted(value: nat)
    ensures
        is_counted(value) <==> value < 0x20_0000_0000_0000 && value <= usize::MAX,
{
}

/// Rounding a quotient changes it by one part in 2^53 at most, or by one unit.
pub proof fn lemma_nearest_near(num: nat, den: nat)
    requires
        den > 0,
    ensures
        nearest(num, den) * den * power2::pow2(53) <= num * (power2::pow2(53) + 1) + den
            * power2::pow2(53),
        nearest(num, den) * den * power2::pow2(53) + den * power2::pow2(53) >= num * (power2::pow2(
            53,
        ) - 1),
{
    let near = nearest(num, den);
    let grain = lemma_grain_exists(num, den);
    let g = power2::pow2(grain);
    let unit = den * g;
    let up = half_even(num, unit);
    let edge = power2::pow2(52);
    lemma_nearest_at(num, den, grain);
    lemma_frame(den, grain);
    lemma_half_even_bounds(num, unit);
    power2::lemma_pow2_unfold(53);
    power2::lemma_pow2_pos(52);
    assert(near * den == up * unit) by (nonlinear_arith)
        requires
            near == up * g,
            unit == den * g,
    ;
    let value = near * den;
    assert(2 * up * unit == 2 * value) by (nonlinear_arith)
        requires
            value == up * unit,
    ;
    assert(unit * edge <= num + den * edge) by {
        if grain == 0 {
            power2::lemma2_to64();
            assert(unit == den) by (nonlinear_arith)
                requires
                    unit == den * g,
                    g == 1,
            ;
        } else {
            assert(den * edge >= 0) by (nonlinear_arith);
        }
    }
    assert(value * (2 * edge) <= num * (2 * edge + 1) + den * (2 * edge)) by (nonlinear_arith)
        requires
            2 * value <= 2 * num + unit,
            unit * edge <= num + den * edge,
            edge > 0,
            den > 0,
    {
        assert(2 * value * edge <= 2 * num * edge + unit * edge);
    }
    assert(value * (2 * edge) + den * (2 * edge) >= num * (2 * edge - 1)) by (nonlinear_arith)
        requires
            2 * num <= 2 * value + unit,
            unit * edge <= num + den * edge,
            edge > 0,
            den > 0,
    {
        assert(2 * num * edge <= 2 * value * edge + unit * edge);
    }
}

} // verus!
