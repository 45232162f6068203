//! Load thresholds.
//!
//! A threshold multiplies the average load of a partition. It is a double kept as plain
//! integers, and loads are compared with the product in double precision.

use crate::double;
use crate::double::Double;
use vstd::arithmetic::power2;
use vstd::prelude::*;

verus! {

/// A multiple of the average load.
#[derive(Debug, Clone, Copy, PartialEq, Eq, Structural)]
pub enum Threshold {
    /// No load is above or below it.
    NotANumber,
    /// Below every load.
    NegativeInfinity,
    /// Above every load.
    PositiveInfinity,
    /// `significand * 2^(exponent - 1074)`, negated where `negative` holds.
    Finite { negative: bool, significand: u64, exponent: u16 },
}

/// The threshold that the bits of an IEEE 754 double stand for: one sign bit,
/// eleven bits of biased exponent and fifty-two bits of fraction.
pub open spec fn decoded(bits: u64) -> Threshold {
    let negative = bits >= 0x8000_0000_0000_0000;
    let biased = (bits as int / 0x10_0000_0000_0000) % 0x800;
    let fraction = bits as int % 0x10_0000_0000_0000;
    if biased == 0x7ff {
        if fraction != 0 {
            Threshold::NotANumber
        } else if negative {
            Threshold::NegativeInfinity
        } else {
            Threshold::PositiveInfinity
        }
    } else if biased == 0 {
        Threshold::Finite { negative, significand: fraction as u64, exponent: 0u16 }
    } else {
        Threshold::Finite {
            negative,
            significand: (0x10_0000_0000_0000 + fraction) as u64,
            exponent: (biased - 1) as u16,
        }
    }
}

impl Threshold {
    /// The threshold one: the average itself.
    pub open spec fn one() -> Threshold {
        Threshold::Finite { negative: false, significand: 1, exponent: 1074 }
    }

    /// Whether `load` is above `self * average`, both as doubles.
    pub open spec fn exceeded_by(self, load: nat, average: nat) -> bool {
        match self {
            Threshold::NotANumber => false,
            Threshold::NegativeInfinity => true,
            Threshold::PositiveInfinity => false,
            Threshold::Finite { negative, significand, exponent } => {
                let bar = double::product(
                    average,
                    double::scaled(significand as nat, exponent as nat),
                );
                double::converted(load) > if negative {
                    -bar
                } else {
                    bar as int
                }
            },
        }
    }

    /// Whether `load` is below `self * average`, both as doubles.
    pub open spec fn unmet_by(self, load: nat, average: nat) -> bool {
        match self {
            Threshold::NotANumber => false,
            Threshold::NegativeInfinity => false,
            Threshold::PositiveInfinity => true,
            Threshold::Finite { negative, significand, exponent } => {
                let bar = double::product(
                    average,
                    double::scaled(significand as nat, exponent as nat),
                );
                double::converted(load) < if negative {
                    -bar
                } else {
                    bar as int
                }
            },
        }
    }

    /// Whether the threshold is `numerator / denominator` or more.
    pub open spec fn at_least(self, numerator: nat, denominator: nat) -> bool {
        match self {
            Threshold::NotANumber => false,
            Threshold::NegativeInfinity => false,
            Threshold::PositiveInfinity => true,
            Threshold::Finite { negative, significand, exponent } => !negative && double::scaled(
                significand as nat,
                exponent as nat,
            ) * denominator >= numerator * power2::pow2(1074),
        }
    }

    /// A load above a threshold of `numerator / denominator` or more is above every double
    /// up to that multiple of the average.
    pub proof fn lemma_above_multiple(
        self,
        numerator: nat,
        denominator: nat,
        load: nat,
        average: nat,
        bound: nat,
    )
        requires
            denominator > 0,
            self.at_least(numerator, denominator),
            self.exceeded_by(load, average),
            double::is_double(bound),
            bound * denominator <= numerator * average,
        ensures
            double::converted(load) > bound,
    {
        if let Threshold::Finite { negative, significand, exponent } = self {
            let factor = double::scaled(significand as nat, exponent as nat);
            let one = power2::pow2(1074);
            power2::lemma_pow2_pos(1074);
            assert(average * factor >= bound * one) by (nonlinear_arith)
                requires
                    factor * denominator >= numerator * one,
                    bound * denominator <= numerator * average,
                    denominator > 0,
                    one > 0,
            {
                assert((average * factor) * denominator == average * (factor * denominator));
                assert(average * (factor * denominator) >= average * (numerator * one));
                assert(average * (numerator * one) == (numerator * average) * one);
                assert((numerator * average) * one >= (bound * denominator) * one);
                assert((bound * denominator) * one == (bound * one) * denominator);
            }
            double::lemma_nearest_mono(average * factor, one, bound);
        }
    }

    /// Against the threshold one, loads compare with the average itself.
    pub proof fn lemma_one(load: nat, average: nat)
        requires
            double::is_double(average),
        ensures
            Threshold::one().exceeded_by(load, average) <==> double::converted(load) > average,
            Threshold::one().unmet_by(load, average) <==> double::converted(load) < average,
    {
        let one = power2::pow2(1074);
        power2::lemma_pow2_pos(1074);
        assert(1 * one == one) by (nonlinear_arith);
        double::lemma_nearest_exact(average * one, one, average);
    }

    /// Decodes the bits of an IEEE 754 double, as `f64::to_bits` gives them.
    pub fn from_bits(bits: u64) -> (threshold: Threshold)
        ensures
            threshold == decoded(bits),
    {
        let negative = bits >= 0x8000_0000_0000_0000;
        let biased: u64 = (bits / 0x10_0000_0000_0000) % 0x800;
        let fraction: u64 = bits % 0x10_0000_0000_0000;
        if biased == 0x7ff {
            if fraction != 0 {
                Threshold::NotANumber
            } else if negative {
                Threshold::NegativeInfinity
            } else {
                Threshold::PositiveInfinity
            }
        } else if biased == 0 {
            Threshold::Finite { negative, significand: fraction, exponent: 0 }
        } else {
            Threshold::Finite {
                negative,
                significand: 0x10_0000_0000_0000 + fraction,
                exponent: (biased - 1) as u16,
            }
        }
    }

    /// Whether `load` is above `self` times the average.
    pub(crate) fn is_exceeded(&self, load: usize, average: Double) -> (above: bool)
        requires
            average.is_moderate(),
        ensures
            above == self.exceeded_by(load as nat, average.units()),
    {
        match *self {
            Threshold::NotANumber => false,
            Threshold::NegativeInfinity => true,
            Threshold::PositiveInfinity => false,
            Threshold::Finite { negative, significand, exponent } => {
                let bar: Double = average.times(significand, exponent);
                let size: Double = Double::converting(load);
                if negative {
                    size.is_positive() || bar.is_positive()
                } else {
                    size.exceeds(bar)
                }
            },
        }
    }

    /// Whether `load` is below `self` times the average.
    pub(crate) fn is_unmet(&self, load: usize, average: Double) -> (below: bool)
        requires
            average.is_moderate(),
        ensures
            below == self.unmet_by(load as nat, average.units()),
    {
        match *self {
            Threshold::NotANumber => false,
            Threshold::NegativeInfinity => false,
            Threshold::PositiveInfinity => true,
            Threshold::Finite { negative, significand, exponent } => {
                let bar: Double = average.times(significand, exponent);
                let size: Double = Double::converting(load);
                !negative && bar.exceeds(size)
            },
        }
    }
}

/// The bits of a double are its sign, its biased exponent and its fraction. An exponent of
/// all ones stands for the infinities and for what is no number. Otherwise the value in units
/// of 2^-1074 is the fraction where the exponent is zero, and else the fraction and 2^52 times
/// two to one less than the exponent.
pub proof fn law_decoded(negative: bool, biased: nat, fraction: nat, bits: u64)
    requires
        biased < 0x800,
        fraction < 0x10_0000_0000_0000,
        bits == (if negative {
            0x8000_0000_0000_0000int
        } else {
            0
        }) + biased * 0x10_0000_0000_0000 + fraction,
    ensures
        biased == 0x7ff && fraction != 0 ==> decoded(bits) == Threshold::NotANumber,
        biased == 0x7ff && fraction == 0 && negative ==> decoded(bits)
            == Threshold::NegativeInfinity,
        biased == 0x7ff && fraction == 0 && !negative ==> decoded(bits)
            == Threshold::PositiveInfinity,
        biased < 0x7ff ==> (decoded(bits) matches Threshold::Finite {
            negative: sign,
            significand,
            exponent,
        } && sign == negative && significand as nat * power2::pow2(exponent as nat) == if biased
            == 0 {
            fraction
        } else {
            (0x10_0000_0000_0000 + fraction) as nat * power2::pow2((biased - 1) as nat)
        }),
{
    assert(negative <==> bits >= 0x8000_0000_0000_0000);
    let low = biased * 0x10_0000_0000_0000 + fraction;
    assert(bits as int / 0x10_0000_0000_0000 == (if negative {
        0x800int
    } else {
        0
    }) + biased);
    assert((bits as int / 0x10_0000_0000_0000) % 0x800 == biased);
    assert(bits as int % 0x10_0000_0000_0000 == fraction);
    power2::lemma2_to64();
    assert(fraction * 1 == fraction) by (nonlinear_arith);
}

/// A threshold is at least a quotient where its value, in units of 2^-1074, is.
pub proof fn law_at_least(threshold: Threshold, numerator: nat, denominator: nat)
    ensures
        threshold.at_least(numerator, denominator) <==> match threshold {
            Threshold::NotANumber => false,
            Threshold::NegativeInfinity => false,
            Threshold::PositiveInfinity => true,
            Threshold::Finite { negative, significand, exponent } => !negative && (
            significand as nat * power2::pow2(exponent as nat)) * denominator >= numerator
                * power2::pow2(1074),
        },
{
}

/// The threshold one is one: it is exceeded by the loads above the average, and not met by
/// those below it.
pub proof fn law_one(load: nat, average: nat)
    requires
        double::is_double(average),
    ensures
        Threshold::one().exceeded_by(load, average) <==> double::nearest(
            load * power2::pow2(1074),
            1,
        ) > average,
        Threshold::one().unmet_by(load, average) <==> double::nearest(
            load * power2::pow2(1074),
            1,
        ) < average,
{
    Threshold::lemma_one(load, average);
}

} // verus!
