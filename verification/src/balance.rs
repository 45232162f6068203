//! The ternary balance signal.

use crate::double;
use crate::loads;
use crate::threshold::Threshold;
use vstd::arithmetic::power2;
use vstd::prelude::*;

verus! {

/// Ternary balance signal for partition health.
#[derive(Debug, Clone, Copy, PartialEq, Eq, Structural)]
pub enum TernaryBalance {
    /// +1: partition sizes are within acceptable thresholds.
    Balanced,
    /// 0: some skew detected but not critical.
    Skewed,
    /// -1: hotspot, a partition is receiving disproportionate traffic or data.
    Hotspot,
}

/// The signal as a number: the higher, the better.
pub open spec fn rank(balance: TernaryBalance) -> int {
    match balance {
        TernaryBalance::Balanced => 1,
        TernaryBalance::Skewed => 0,
        TernaryBalance::Hotspot => -1,
    }
}

impl TernaryBalance {
    /// Numeric value: +1, 0, or -1.
    pub fn value(&self) -> (value: i8)
        ensures
            value == rank(*self),
    {
        match self {
            TernaryBalance::Balanced => 1,
            TernaryBalance::Skewed => 0,
            TernaryBalance::Hotspot => -1,
        }
    }

    /// Is the partition system healthy?
    pub fn is_healthy(&self) -> (healthy: bool)
        ensures
            healthy == (*self == TernaryBalance::Balanced),
    {
        matches!(self, TernaryBalance::Balanced)
    }

    /// The numeric value in decimal.
    pub fn to_string(&self) -> (text: String)
        ensures
            text@ == match *self {
                TernaryBalance::Balanced => "1"@,
                TernaryBalance::Skewed => "0"@,
                TernaryBalance::Hotspot => "-1"@,
            },
    {
        match self {
            TernaryBalance::Balanced => "1".to_string(),
            TernaryBalance::Skewed => "0".to_string(),
            TernaryBalance::Hotspot => "-1".to_string(),
        }
    }
}

/// How far the load of a partition is from the average, times the number of partitions.
pub open spec fn deviation(loads: Seq<nat>, partition: int) -> nat {
    vstd::math::abs(loads[partition] * loads.len() - loads::sum(loads))
}

/// A load in `after` is no further from the average than some load in `before` is.
pub open spec fn is_no_further(before: Seq<nat>, after: Seq<nat>, partition: int) -> bool {
    exists|q: int|
        0 <= q < before.len() && deviation(after, partition) <= #[trigger] deviation(before, q)
}

/// Every load deviates from the average by less than `numerator / denominator` of it.
pub open spec fn deviates_below(loads: Seq<nat>, numerator: nat, denominator: nat) -> bool {
    forall|p: int|
        0 <= p < loads.len() ==> denominator * #[trigger] deviation(loads, p) < numerator
            * loads::sum(loads)
}

/// The signal for the given loads: balanced below a deviation of 10%, skewed below 30%,
/// a hotspot from there on. Without any load, all is balanced.
pub open spec fn signal(loads: Seq<nat>) -> TernaryBalance {
    if loads::sum(loads) == 0 || deviates_below(loads, 1, 10) {
        TernaryBalance::Balanced
    } else if deviates_below(loads, 3, 10) {
        TernaryBalance::Skewed
    } else {
        TernaryBalance::Hotspot
    }
}

/// Computes the signal for the given sizes.
pub(crate) fn signal_of(sizes: &Vec<usize>) -> (balance: TernaryBalance)
    requires
        loads::sum(loads::counted(sizes@)) <= usize::MAX,
    ensures
        balance == signal(loads::counted(sizes@)),
{
    let total: usize = loads::add_up(sizes);
    if total == 0 {
        return TernaryBalance::Balanced;
    }
    let ghost loads = loads::counted(sizes@);
    let mut worst: u128 = 0;
    for i in 0..sizes.len()
        invariant
            loads == loads::counted(sizes@),
            total == loads::sum(loads),
            forall|p: int| 0 <= p < i ==> #[trigger] deviation(loads, p) <= worst,
            worst == 0 || exists|p: int| 0 <= p < i && #[trigger] deviation(loads, p) == worst,
    {
        let weight: u128 = loads::weigh(sizes[i], sizes.len());
        let distance: u128 = if weight < total as u128 {
            total as u128 - weight
        } else {
            weight - total as u128
        };
        assert(distance == deviation(loads, i as int));
        if distance > worst {
            worst = distance;
        }
    }
    proof {
        if worst == 0 {
            assert(loads.len() > 0);
            assert(deviation(loads, 0) == 0);
        }
    }
    if worst >= total as u128 {
        TernaryBalance::Hotspot
    } else if 10 * worst < total as u128 {
        TernaryBalance::Balanced
    } else if 10 * worst < 3 * total as u128 {
        TernaryBalance::Skewed
    } else {
        TernaryBalance::Hotspot
    }
}

/// Equal loads are balanced.
pub proof fn law_equal_is_balanced(loads: Seq<nat>, load: nat)
    requires
        forall|p: int| 0 <= p < loads.len() ==> #[trigger] loads[p] == load,
    ensures
        signal(loads) == TernaryBalance::Balanced,
{
    loads::lemma_equal_sum(loads, load);
    assert forall|p: int| 0 <= p < loads.len() implies #[trigger] deviation(loads, p) == 0 by {
        assert(loads[p] == load);
        assert(load * loads.len() == loads.len() * load) by (nonlinear_arith);
    }
}

/// Unless the signal is a hotspot, no partition is hot at a threshold of 1.3 or more; and
/// where it is balanced, none is hot at one of 1.1 or more. The numbers have to be small
/// enough for doubles to tell such multiples of the average apart.
pub proof fn law_signal_bounds_hotspots(loads: Seq<nat>, threshold: Threshold)
    requires
        loads::is_modest(loads),
        13 * loads::sum(loads) <= power2::pow2(53),
    ensures
        signal(loads) != TernaryBalance::Hotspot && threshold.at_least(13, 10) ==> loads::hotspots(
            loads,
            threshold,
        ).len() == 0,
        signal(loads) == TernaryBalance::Balanced && threshold.at_least(11, 10) ==> loads::hotspots(
            loads,
            threshold,
        ).len() == 0,
{
    let hot = loads::hotspots(loads, threshold);
    if hot.len() > 0 {
        loads::lemma_picked(loads, loads.len(), |p: usize| loads::is_hot(loads, threshold, p));
        let p = hot[0];
        assert(loads::is_hot(loads, threshold, p));
        if threshold.at_least(13, 10) {
            lemma_hot_deviates(loads, threshold, p, 13);
        }
        if threshold.at_least(11, 10) {
            lemma_hot_deviates(loads, threshold, p, 11);
        }
    }
}

/// A partition that is hot at a threshold of so many tenths or more deviates by the tenths
/// beyond ten at least.
proof fn lemma_hot_deviates(loads: Seq<nat>, threshold: Threshold, partition: usize, tenths: nat)
    requires
        loads::is_modest(loads),
        loads::sum(loads) > 0,
        10 <= tenths,
        tenths * loads::sum(loads) <= power2::pow2(53),
        threshold.at_least(tenths, 10),
        partition < loads.len(),
        loads::is_hot(loads, threshold, partition),
    ensures
        10 * deviation(loads, partition as int) >= (tenths - 10) * loads::sum(loads),
{
    double::lemma_counted();
    let load = loads[partition as int];
    let total = loads::sum(loads);
    let average = double::average(loads.len(), total);
    loads::lemma_load_within(loads, partition as int);
    if loads.len() > power2::pow2(53) {
        assert(threshold.at_least(1, 1)) by {
            lemma_ten_tenths(threshold, tenths);
        }
        loads::lemma_hot_is_above(loads, threshold, partition);
        let count = loads.len();
        assert(load * count >= count) by (nonlinear_arith)
            requires
                load * count > total,
                total >= 0,
        ;
        assert(tenths * total <= 10 * (load * count));
    } else if 10 * (load * loads.len()) < tenths * total {
        double::lemma_below_multiple(load, loads.len(), total, tenths, 10);
        double::lemma_converted_exact(load);
        threshold.lemma_above_multiple(tenths, 10, load, average, double::converted(load));
    }
    assert((tenths - 10) * total == tenths * total - 10 * total) by (nonlinear_arith);
}

/// A threshold of ten tenths or more is one or more.
proof fn lemma_ten_tenths(threshold: Threshold, tenths: nat)
    requires
        10 <= tenths,
        threshold.at_least(tenths, 10),
    ensures
        threshold.at_least(1, 1),
{
    if let Threshold::Finite { negative, significand, exponent } = threshold {
        let factor = double::scaled(significand as nat, exponent as nat);
        let one = power2::pow2(1074);
        assert(factor * 1 >= 1 * one) by (nonlinear_arith)
            requires
                factor * 10 >= tenths * one,
                tenths >= 10,
                one >= 0,
        ;
    }
}

/// No partition is both hot at a threshold of one or more and underloaded at one.
pub proof fn law_hot_is_not_underloaded(loads: Seq<nat>, threshold: Threshold, partition: usize)
    requires
        partition < loads.len(),
        threshold.at_least(1, 1),
        loads::is_hot(loads, threshold, partition),
    ensures
        !loads::is_underloaded(loads, Threshold::one(), partition),
{
    loads::lemma_hot_exceeds(loads, threshold, partition);
    loads::lemma_underloaded_lacks(loads, partition);
}

/// The signal says how far the loads are from the average, in both directions and whatever
/// they add up to. It is balanced where all differ from the average by less than a tenth of
/// it, or where there are no keys; a hotspot where one differs by three tenths or more; and
/// skewed otherwise.
pub proof fn law_signal_bands(loads: Seq<nat>)
    ensures
        ({
            let n = loads.len();
            let total = loads::sum(loads);
            &&& signal(loads) == TernaryBalance::Balanced <==> total == 0 || forall|p: int|
                0 <= p < n ==> 10 * (#[trigger] loads[p] * n) < 11 * total && 10 * (loads[p] * n) > 9
                    * total
            &&& signal(loads) == TernaryBalance::Hotspot <==> total > 0 && exists|p: int|
                0 <= p < n && (10 * (#[trigger] loads[p] * n) >= 13 * total || 10 * (loads[p] * n)
                    <= 7 * total)
        }),
{
    let n = loads.len();
    let total = loads::sum(loads);
    if total > 0 {
        assert forall|p: int| 0 <= p < n implies (10 * #[trigger] deviation(loads, p) < total
            <==> 10 * (loads[p] * n) < 11 * total && 10 * (loads[p] * n) > 9 * total) && (10
            * deviation(loads, p) < 3 * total <==> 10 * (loads[p] * n) < 13 * total && 10 * (
        loads[p] * n) > 7 * total) by {}
        if deviates_below(loads, 1, 10) {
            assert forall|p: int| 0 <= p < n implies 10 * (#[trigger] loads[p] * n) < 11 * total
                && 10 * (loads[p] * n) > 9 * total by {
                assert(10 * deviation(loads, p) < 1 * total);
            }
        } else {
            let p = choose|p: int|
                0 <= p < n && !(10 * #[trigger] deviation(loads, p) < 1 * total);
            assert(!(10 * (loads[p] * n) < 11 * total && 10 * (loads[p] * n) > 9 * total));
        }
        if deviates_below(loads, 3, 10) {
            assert forall|p: int| 0 <= p < n implies 10 * (#[trigger] loads[p] * n) < 13 * total
                && 10 * (loads[p] * n) > 7 * total by {
                assert(10 * deviation(loads, p) < 3 * total);
            }
        } else {
            let p = choose|p: int|
                0 <= p < n && !(10 * #[trigger] deviation(loads, p) < 3 * total);
            assert(0 <= p < n && (10 * (loads[p] * n) >= 13 * total || 10 * (loads[p] * n) <= 7
                * total));
            assert(deviation(loads, p) * 10 >= 3 * total);
            assert(!deviates_below(loads, 1, 10)) by {
                if deviates_below(loads, 1, 10) {
                    assert(10 * deviation(loads, p) < 1 * total);
                }
            }
        }
    }
}

/// The deviation of a load is its distance from the average, times the number of partitions.
pub proof fn law_deviation(loads: Seq<nat>, partition: int)
    ensures
        ({
            let weight = loads[partition] * loads.len();
            let total = loads::sum(loads);
            ||| weight >= total && deviation(loads, partition) == weight - total
            ||| weight <= total && deviation(loads, partition) == total - weight
        }),
{
}

/// Better signals rank higher, from minus one to one.
pub proof fn law_rank()
    ensures
        rank(TernaryBalance::Balanced) == 1,
        rank(TernaryBalance::Balanced) > rank(TernaryBalance::Skewed) > rank(
            TernaryBalance::Hotspot,
        ),
        rank(TernaryBalance::Hotspot) == -1,
{
}

} // verus!
