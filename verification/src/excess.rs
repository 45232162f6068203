//! How far loads are from the average, in whole keys.
//!
//! The average and the distance from it are computed in double precision, and rounded up.

use crate::double;
use crate::double::Double;
use vstd::arithmetic::power2;
use vstd::prelude::*;

verus! {

/// How far `load` is above an average, in doubles, rounded up.
pub open spec fn above(load: nat, average: nat) -> nat {
    let size = double::converted(load);
    if size <= average {
        0
    } else {
        double::rounded_up(double::difference(size, average))
    }
}

/// How far `load` is below an average, in doubles, rounded up.
pub open spec fn below(load: nat, average: nat) -> nat {
    let size = double::converted(load);
    if average <= size {
        0
    } else {
        double::rounded_up(double::difference(average, size))
    }
}

/// How far `load` is above the average of `total` over `partitions`, computed in doubles and
/// rounded up.
pub open spec fn excess(load: nat, partitions: nat, total: nat) -> nat {
    above(load, double::average(partitions, total))
}

/// How far `load` is below the average of `total` over `partitions`, computed in doubles and
/// rounded up.
pub open spec fn shortfall(load: nat, partitions: nat, total: nat) -> nat {
    below(load, double::average(partitions, total))
}

/// How far `load` is above the average, rounded up.
pub open spec fn exact_excess(load: nat, partitions: nat, total: nat) -> nat {
    if load * partitions <= total {
        0
    } else {
        double::ceiling((load * partitions - total) as nat, partitions)
    }
}

/// How far `load` is below the average, rounded up.
pub open spec fn exact_shortfall(load: nat, partitions: nat, total: nat) -> nat {
    if total <= load * partitions {
        0
    } else {
        double::ceiling((total - load * partitions) as nat, partitions)
    }
}

/// The average of `total` over `partitions`, rounded up.
pub open spec fn average_ceiling(partitions: nat, total: nat) -> nat {
    double::ceiling(total, partitions)
}

/// Rounding to doubles loses nothing: excess and shortfall of every possible load are exact.
pub open spec fn counts_exactly(partitions: nat, total: nat) -> bool {
    forall|load: nat|
        load <= total ==> #[trigger] excess(load, partitions, total) == exact_excess(
            load,
            partitions,
            total,
        ) && shortfall(load, partitions, total) == exact_shortfall(load, partitions, total)
}

/// Giving its excess brings every possible load down to the average, and filling its shortfall
/// up to it, but for `slack / partitions` keys.
pub open spec fn is_off_by(partitions: nat, total: nat, slack: nat) -> bool {
    forall|load: nat|
        load <= total ==> {
            &&& load * partitions <= total + slack + (#[trigger] excess(load, partitions, total))
                * partitions
            &&& total <= load * partitions + slack + shortfall(load, partitions, total) * partitions
        }
}

/// Computes how far `load` is above an average.
pub(crate) fn excess_over(load: usize, average: Double) -> (gap: usize)
    requires
        average.is_moderate(),
    ensures
        gap == above(load as nat, average.units()),
{
    let size: Double = Double::converting(load);
    if size.exceeds(average) {
        size.minus(average).round_up()
    } else {
        0
    }
}

/// Computes how far `load` is below an average.
pub(crate) fn shortfall_to(load: usize, average: Double) -> (gap: usize)
    requires
        average.is_moderate(),
    ensures
        gap == below(load as nat, average.units()),
{
    let size: Double = Double::converting(load);
    if average.exceeds(size) {
        average.minus(size).round_up()
    } else {
        0
    }
}

/// Up to 2^53 keys, rounding never makes an excess greater, nor less by more than one key.
pub proof fn lemma_excess(load: nat, partitions: nat, total: nat)
    requires
        0 < partitions <= usize::MAX,
        double::is_counted(total),
        load <= total,
    ensures
        excess(load, partitions, total) <= exact_excess(load, partitions, total),
        exact_excess(load, partitions, total) <= excess(load, partitions, total) + 1,
        exact_excess(load, partitions, total) <= load,
{
    double::lemma_counted();
    let p = power2::pow2(1074);
    let size = double::converted(load);
    let average = double::average(partitions, total);
    double::lemma_converted_exact(load);
    double::lemma_average_bounds(load, partitions, total);
    if load * partitions > total {
        let exact = exact_excess(load, partitions, total);
        double::lemma_ceiling((load * partitions - total) as nat, partitions);
        assert(0 < exact <= load) by (nonlinear_arith)
            requires
                exact * partitions < load * partitions - total + partitions,
                exact * partitions >= load * partitions - total,
                load * partitions > total,
                partitions > 0,
                exact >= 0,
        ;
        let low = (load - exact) as nat;
        assert(low * partitions <= total && (low + 1) * partitions >= total) by (nonlinear_arith)
            requires
                low == load - exact,
                exact * partitions < load * partitions - total + partitions,
                exact * partitions >= load * partitions - total,
        ;
        double::lemma_average_bounds(low, partitions, total);
        double::lemma_average_bounds(low + 1, partitions, total);
        let fewer = (exact - 1) as nat;
        assert(load * p - low * p == exact * p && load * p - (low + 1) * p == fewer * p)
            by (nonlinear_arith)
            requires
                low == load - exact,
                fewer == exact - 1,
        ;
        if size > average {
            double::lemma_rounded_difference(size, average, exact);
            double::lemma_rounded_difference(size, average, fewer);
        } else {
            power2::lemma_pow2_pos(1074);
            assert(fewer == 0) by (nonlinear_arith)
                requires
                    fewer * p <= 0,
                    p > 0,
                    fewer >= 0,
            ;
        }
    }
}

/// Up to 2^53 keys, rounding never makes a shortfall greater, nor less by more than one key.
pub proof fn lemma_shortfall(load: nat, partitions: nat, total: nat)
    requires
        0 < partitions <= usize::MAX,
        double::is_counted(total),
    ensures
        shortfall(load, partitions, total) <= exact_shortfall(load, partitions, total),
        exact_shortfall(load, partitions, total) <= shortfall(load, partitions, total) + 1,
        exact_shortfall(load, partitions, total) > 0 ==> load + exact_shortfall(
            load,
            partitions,
            total,
        ) <= average_ceiling(partitions, total),
{
    double::lemma_counted();
    let p = power2::pow2(1074);
    let size = double::converted(load);
    let average = double::average(partitions, total);
    if load * partitions >= total {
        if load <= power2::pow2(53) {
            double::lemma_converted_exact(load);
            double::lemma_average_bounds(load, partitions, total);
        } else {
            assert(total * partitions >= total) by (nonlinear_arith)
                requires
                    partitions > 0,
            ;
            double::lemma_average_bounds(total, partitions, total);
            assert(load * p >= total * p) by (nonlinear_arith)
                requires
                    load >= total,
            ;
            double::lemma_converted_exact(total);
            let units = total * p;
            assert(units * 1 == units) by (nonlinear_arith);
            double::lemma_nearest_mono(load * p, 1, units);
        }
    } else {
        let exact = exact_shortfall(load, partitions, total);
        double::lemma_ceiling((total - load * partitions) as nat, partitions);
        let top = load + exact;
        assert(exact > 0 && top <= total) by (nonlinear_arith)
            requires
                exact <= total - load * partitions,
                exact * partitions >= total - load * partitions,
                load * partitions < total,
                partitions > 0,
                top == load + exact,
                load >= 0,
        ;
        let below = (top - 1) as nat;
        assert(top * partitions >= total && below * partitions <= total) by (nonlinear_arith)
            requires
                top == load + exact,
                below == top - 1,
                exact * partitions < total - load * partitions + partitions,
                exact * partitions >= total - load * partitions,
        ;
        double::lemma_converted_exact(load);
        double::lemma_average_bounds(top, partitions, total);
        double::lemma_average_bounds(below, partitions, total);
        let fewer = (exact - 1) as nat;
        assert(top * p - load * p == exact * p && below * p - load * p == fewer * p)
            by (nonlinear_arith)
            requires
                top == load + exact,
                below == top - 1,
                fewer == exact - 1,
        ;
        if average > size {
            double::lemma_rounded_difference(average, size, exact);
            double::lemma_rounded_difference(average, size, fewer);
        } else {
            power2::lemma_pow2_pos(1074);
            assert(fewer == 0) by (nonlinear_arith)
                requires
                    fewer * p <= 0,
                    p > 0,
                    fewer >= 0,
            ;
        }
        let ceil = average_ceiling(partitions, total);
        double::lemma_ceiling(total, partitions);
        assert(top <= ceil) by (nonlinear_arith)
            requires
                below * partitions <= total,
                exact * partitions < total - load * partitions + partitions,
                total <= ceil * partitions,
                top == load + exact,
                partitions > 0,
        ;
    }
}

/// A load above the average in doubles has an excess, and one below it has a shortfall.
pub proof fn lemma_some(load: nat, average: nat)
    ensures
        double::converted(load) > average ==> above(load, average) > 0,
        double::converted(load) < average ==> below(load, average) > 0,
{
    let size = double::converted(load);
    if size > average {
        double::lemma_rounded_difference(size, average, 0);
    }
    if size < average {
        double::lemma_rounded_difference(average, size, 0);
    }
}

/// An excess is exact where the products of the loads and the number of partitions are small
/// enough.
proof fn lemma_excess_exact(load: nat, partitions: nat, total: nat)
    requires
        0 < partitions <= usize::MAX,
        total <= usize::MAX,
        load <= total,
        load * partitions + total < power2::pow2(53),
    ensures
        excess(load, partitions, total) == exact_excess(load, partitions, total),
{
    double::lemma_counted();
    let p = power2::pow2(1074);
    let bits = power2::pow2(53);
    let n = partitions;
    let up = excess(load, n, total);
    let exact = exact_excess(load, n, total);
    lemma_excess(load, n, total);
    if up < exact {
        let size = double::converted(load);
        let average = double::average(n, total);
        assert(load * n > total);
        assert(n <= bits) by (nonlinear_arith)
            requires
                load * n < bits,
                load * n > total,
                total >= 0,
                n > 0,
        {
            assert(load >= 1);
        }
        double::lemma_converted_exact(load);
        double::lemma_ceiling((load * n - total) as nat, n);
        assert(up * n < load * n - total) by (nonlinear_arith)
            requires
                up + 1 <= exact,
                exact * n < load * n - total + n,
        ;
        let m = (load - up) as nat;
        assert(m * n >= total + 1) by (nonlinear_arith)
            requires
                up * n < load * n - total,
                m == load - up,
        ;
        assert(average * n * bits <= (bits + 1) * (total * p)) by {
            if total > 0 {
                double::lemma_average_close(n, total);
            } else {
                assert(0 * n == 0) by (nonlinear_arith);
                double::lemma_average_bounds(0, n, total);
                assert(0 * p == 0) by (nonlinear_arith);
                assert(0 * n * bits == 0 && (bits + 1) * (0 * p) == 0) by (nonlinear_arith);
            }
        }
        let gap = (size - average) as nat;
        power2::lemma_pow2_pos(1074);
        power2::lemma_pow2_pos(53);
        if size > average {
            double::lemma_nearest_close(gap);
            let near = double::difference(size, average);
            double::lemma_ceiling(near, p);
            assert(near <= up * p);
            assert(near * bits <= (up * p) * bits) by (nonlinear_arith)
                requires
                    near <= up * p,
            ;
        } else {
            assert((bits - 1) * (size - average) <= 0) by (nonlinear_arith)
                requires
                    size <= average,
                    bits >= 1,
            ;
            assert((up * p) * bits >= 0) by (nonlinear_arith);
        }
        lemma_excess_clash(load, n, total, up, average, p, bits);
    }
}

/// For a rounded excess to be one key less, products have to reach 2^53.
proof fn lemma_excess_clash(
    load: nat,
    n: nat,
    total: nat,
    up: nat,
    average: nat,
    p: nat,
    bits: nat,
)
    requires
        p > 0,
        bits > 0,
        n > 0,
        up <= load,
        (load - up) * n >= total + 1,
        average * n * bits <= (bits + 1) * (total * p),
        (bits - 1) * (load * p - average) <= (up * p) * bits,
    ensures
        load * n + total >= bits,
{
    let m = (load - up) as nat;
    let size = load * p;
    assert(m * p * bits <= size + average * bits) by (nonlinear_arith)
        requires
            (bits - 1) * (size - average) <= (up * p) * bits,
            size == load * p,
            m == load - up,
            average >= 0,
            bits > 0,
    {
        assert(m * p * bits == size * bits - (up * p) * bits);
        assert((bits - 1) * (size - average) == bits * size - size - bits * average + average);
    }
    assert(n * (m * p * bits) <= n * (size + average * bits)) by (nonlinear_arith)
        requires
            m * p * bits <= size + average * bits,
    ;
    assert(n * (m * p * bits) == (m * n) * (p * bits)) by (nonlinear_arith);
    assert(n * (size + average * bits) == (load * n) * p + average * n * bits) by (nonlinear_arith)
        requires
            size == load * p,
    ;
    assert((m * n) * (p * bits) >= (total + 1) * (p * bits)) by (nonlinear_arith)
        requires
            m * n >= total + 1,
    ;
    assert((total + 1) * (p * bits) == total * (p * bits) + p * bits) by (nonlinear_arith);
    assert((bits + 1) * (total * p) == total * (p * bits) + total * p) by (nonlinear_arith);
    assert(p * bits <= (load * n + total) * p) by (nonlinear_arith)
        requires
            p * bits <= (load * n) * p + total * p,
    ;
    let reached = load * n + total;
    assert(reached >= bits) by (nonlinear_arith)
        requires
            p * bits <= reached * p,
            p > 0,
    ;
}

/// A shortfall is exact up to 2^52 keys.
proof fn lemma_shortfall_exact(load: nat, partitions: nat, total: nat)
    requires
        0 < partitions <= usize::MAX,
        total <= usize::MAX,
        2 * total <= power2::pow2(53),
    ensures
        shortfall(load, partitions, total) == exact_shortfall(load, partitions, total),
{
    double::lemma_counted();
    let p = power2::pow2(1074);
    let bits = power2::pow2(53);
    let n = partitions;
    let up = shortfall(load, n, total);
    let exact = exact_shortfall(load, n, total);
    power2::lemma_pow2_pos(53);
    lemma_shortfall(load, n, total);
    if up < exact {
        let size = double::converted(load);
        let average = double::average(n, total);
        assert(load * n < total);
        assert(load <= total) by (nonlinear_arith)
            requires
                load * n < total,
                n > 0,
        ;
        double::lemma_converted_exact(load);
        if n > bits {
            assert(load == 0) by (nonlinear_arith)
                requires
                    load * n < n,
            ;
            double::lemma_average_of_many(n, total);
            double::lemma_converted_from_one(load);
            lemma_some(load, average);
            assert(0 * n == 0) by (nonlinear_arith);
            double::lemma_ceiling_mono(total, n, 1);
            assert(1 * n == n) by (nonlinear_arith);
        } else {
            double::lemma_ceiling((total - load * n) as nat, n);
            let m = load + up;
            assert(m * n <= total - 1) by (nonlinear_arith)
                requires
                    up + 1 <= exact,
                    exact * n < total - load * n + n,
                    m == load + up,
            ;
            double::lemma_average_close(n, total);
            let gap = (average - size) as nat;
            power2::lemma_pow2_pos(1074);
            if average > size {
                double::lemma_nearest_close(gap);
                let near = double::difference(average, size);
                double::lemma_ceiling(near, p);
                assert(near <= up * p);
                assert(near * bits <= (up * p) * bits) by (nonlinear_arith)
                    requires
                        near <= up * p,
                ;
            } else {
                assert((bits - 1) * (average - size) <= 0) by (nonlinear_arith)
                    requires
                        average <= size,
                        bits >= 1,
                ;
                assert((up * p) * bits >= 0) by (nonlinear_arith);
            }
            lemma_shortfall_clash(load, n, total, up, average, p, bits);
        }
    }
}

/// For a rounded shortfall to be one key less, there have to be more than 2^52 keys.
proof fn lemma_shortfall_clash(
    load: nat,
    n: nat,
    total: nat,
    up: nat,
    average: nat,
    p: nat,
    bits: nat,
)
    requires
        p > 0,
        bits > 0,
        n > 0,
        (load + up) * n <= total - 1,
        average * n * bits >= (bits - 1) * (total * p),
        (bits - 1) * (average - load * p) <= (up * p) * bits,
    ensures
        2 * total > bits,
{
    let m = load + up;
    let size = load * p;
    let less = bits - 1;
    assert(less * average <= m * p * bits) by (nonlinear_arith)
        requires
            less * (average - size) <= (up * p) * bits,
            size == load * p,
            m == load + up,
            less == bits - 1,
            size >= 0,
    {
        assert(m * p * bits == size * bits + (up * p) * bits);
        assert(less * (average - size) == less * average - (bits * size - size));
    }
    let scale = n * bits;
    assert((less * average) * scale <= (m * p * bits) * scale) by (nonlinear_arith)
        requires
            less * average <= m * p * bits,
            scale >= 0,
    ;
    assert((less * average) * scale == less * (average * n * bits)) by (nonlinear_arith)
        requires
            scale == n * bits,
    ;
    assert((m * p * bits) * scale == (m * n) * (p * bits * bits)) by (nonlinear_arith)
        requires
            scale == n * bits,
    ;
    assert(less * (average * n * bits) >= less * (less * (total * p))) by (nonlinear_arith)
        requires
            average * n * bits >= less * (total * p),
            less >= 0,
    ;
    assert((m * n) * (p * bits * bits) <= (total - 1) * (p * bits * bits)) by (nonlinear_arith)
        requires
            m * n <= total - 1,
            p * bits * bits >= 0,
    ;
    assert(less * (less * (total * p)) == (total * p) * (bits * bits) - 2 * (total * p) * bits
        + total * p) by (nonlinear_arith)
        requires
            less == bits - 1,
    ;
    assert((total - 1) * (p * bits * bits) == (total * p) * (bits * bits) - p * (bits * bits))
        by (nonlinear_arith);
    assert(total * p > 0) by (nonlinear_arith)
        requires
            m * n <= total - 1,
            m >= 0,
            n > 0,
            p > 0,
    ;
    assert(2 * total > bits) by (nonlinear_arith)
        requires
            p * (bits * bits) < 2 * (total * p) * bits,
            p > 0,
            bits > 0,
    {
        assert(2 * (total * p) * bits == (2 * total) * (p * bits));
        assert(p * (bits * bits) == bits * (p * bits));
    }
}

/// Rounding loses nothing where the number of keys times that of the partitions and one more
/// is below 2^53, nor where the average is whole.
pub proof fn law_counts_exactly(partitions: nat, total: nat)
    requires
        0 < partitions <= usize::MAX,
        double::is_counted(total),
        total * (partitions + 1) < power2::pow2(53) || total % partitions == 0,
    ensures
        counts_exactly(partitions, total),
{
    double::lemma_counted();
    let n = partitions;
    assert forall|load: nat| load <= total implies #[trigger] excess(load, n, total)
        == exact_excess(load, n, total) && shortfall(load, n, total) == exact_shortfall(
        load,
        n,
        total,
    ) by {
        if total % n == 0 {
            lemma_whole_average(load, n, total);
        } else {
            assert(load * n + total <= total * (n + 1) && 2 * total <= total * (n + 1))
                by (nonlinear_arith)
                requires
                    load <= total,
                    n >= 1,
            ;
            lemma_excess_exact(load, n, total);
            lemma_shortfall_exact(load, n, total);
        }
    }
}

/// Rounding loses nothing where the average is whole.
proof fn lemma_whole_average(load: nat, partitions: nat, total: nat)
    requires
        0 < partitions <= usize::MAX,
        double::is_counted(total),
        total % partitions == 0,
        load <= total,
    ensures
        excess(load, partitions, total) == exact_excess(load, partitions, total),
        shortfall(load, partitions, total) == exact_shortfall(load, partitions, total),
{
    double::lemma_counted();
    let n = partitions;
    let p = power2::pow2(1074);
    let whole = total / n;
    vstd::arithmetic::div_mod::lemma_fundamental_div_mod(total as int, n as int);
    assert(n * whole == whole * n) by (nonlinear_arith);
    assert(whole <= total) by (nonlinear_arith)
        requires
            whole * n == total,
            n >= 1,
            whole >= 0,
    ;
    lemma_excess(load, n, total);
    lemma_shortfall(load, n, total);
    double::lemma_converted_exact(load);
    double::lemma_average_bounds(whole, n, total);
    let size = double::converted(load);
    let average = double::average(n, total);
    assert(average == whole * p);
    if load * n > total {
        assert(load > whole) by (nonlinear_arith)
            requires
                load * n > whole * n,
                n > 0,
        ;
        let gap = (load - whole) as nat;
        assert(load * p - whole * p == gap * p && load * n - whole * n == gap * n)
            by (nonlinear_arith)
            requires
                gap == load - whole,
        ;
        double::lemma_ceiling_mono(gap * n, n, gap);
        double::lemma_rounded_difference(size, average, gap);
        power2::lemma_pow2_pos(1074);
        assert(gap * p > 0) by (nonlinear_arith)
            requires
                gap > 0,
                p > 0,
        ;
    }
    if load * n < total {
        assert(load < whole) by (nonlinear_arith)
            requires
                load * n < whole * n,
                n > 0,
        ;
        let gap = (whole - load) as nat;
        assert(whole * p - load * p == gap * p && whole * n - load * n == gap * n)
            by (nonlinear_arith)
            requires
                gap == whole - load,
        ;
        double::lemma_ceiling_mono(gap * n, n, gap);
        double::lemma_rounded_difference(average, size, gap);
        power2::lemma_pow2_pos(1074);
        assert(gap * p > 0) by (nonlinear_arith)
            requires
                gap > 0,
                p > 0,
        ;
    }
}

/// What is counted exactly is not off at all, and up to 2^53 keys nothing is off by more than
/// one key.
pub proof fn lemma_off_by(partitions: nat, total: nat)
    requires
        0 < partitions <= usize::MAX,
    ensures
        counts_exactly(partitions, total) ==> is_off_by(partitions, total, 0),
        double::is_counted(total) ==> is_off_by(partitions, total, partitions),
{
    let n = partitions;
    assert forall|load: nat| load <= total implies load * n <= total + exact_excess(load, n, total)
        * n && total <= load * n + exact_shortfall(load, n, total) * n by {
        if load * n > total {
            double::lemma_ceiling((load * n - total) as nat, n);
        }
        if load * n < total {
            double::lemma_ceiling((total - load * n) as nat, n);
        }
        assert(exact_excess(load, n, total) * n >= 0 && exact_shortfall(load, n, total) * n >= 0)
            by (nonlinear_arith);
    }
    if double::is_counted(total) {
        assert forall|load: nat| load <= total implies {
            &&& load * n <= total + n + (#[trigger] excess(load, n, total)) * n
            &&& total <= load * n + n + shortfall(load, n, total) * n
        } by {
            lemma_excess(load, n, total);
            lemma_shortfall(load, n, total);
            let (a, b) = (excess(load, n, total), exact_excess(load, n, total));
            let (c, d) = (shortfall(load, n, total), exact_shortfall(load, n, total));
            assert(b * n <= a * n + n) by (nonlinear_arith)
                requires
                    b <= a + 1,
            ;
            assert(d * n <= c * n + n) by (nonlinear_arith)
                requires
                    d <= c + 1,
            ;
        }
    }
}

/// How far a load is above or below an average, in doubles: nothing on the other side, and
/// otherwise the rounded difference, rounded up to a whole number of keys.
pub proof fn law_distance(load: nat, average: nat)
    ensures
        ({
            let one = power2::pow2(1074);
            let size = double::nearest(load * one, 1);
            &&& size <= average ==> above(load, average) == 0
            &&& size >= average ==> below(load, average) == 0
            &&& size > average ==> {
                let gap = double::nearest((size - average) as nat, 1);
                let keys = above(load, average);
                &&& 0 < keys <= usize::MAX
                &&& keys < usize::MAX ==> gap <= keys * one
                &&& gap > (keys - 1) * one
            }
            &&& size < average ==> {
                let gap = double::nearest((average - size) as nat, 1);
                let keys = below(load, average);
                &&& 0 < keys <= usize::MAX
                &&& keys < usize::MAX ==> gap <= keys * one
                &&& gap > (keys - 1) * one
            }
        }),
{
    let size = double::converted(load);
    lemma_some(load, average);
    if size > average {
        double::law_rounded_up(double::difference(size, average));
    }
    if size < average {
        double::law_rounded_up(double::difference(average, size));
    }
}

/// Excess and shortfall in plain arithmetic, for numbers that doubles count. They are the
/// least number of keys that brings a load to the average, or one less; and exactly that where
/// the number of keys times that of the partitions and one more is below 2^53, or where the
/// average is whole.
pub proof fn law_excess_and_shortfall(load: nat, partitions: nat, total: nat)
    requires
        0 < partitions <= usize::MAX,
        total < 0x20_0000_0000_0000,
        total <= usize::MAX,
        load <= total,
    ensures
        ({
            let over = excess(load, partitions, total);
            let under = shortfall(load, partitions, total);
            let weight = load * partitions;
            let exact = total * (partitions + 1) < 0x20_0000_0000_0000 || total % partitions == 0;
            &&& weight <= total ==> over == 0
            &&& weight >= total ==> under == 0
            &&& weight > total ==> over * partitions < weight - total + partitions
            &&& weight > total ==> over * partitions + partitions >= weight - total
            &&& weight > total && exact ==> over * partitions >= weight - total
            &&& weight < total ==> under * partitions < total - weight + partitions
            &&& weight < total ==> under * partitions + partitions >= total - weight
            &&& weight < total && exact ==> under * partitions >= total - weight
        }),
{
    let n = partitions;
    let over = excess(load, n, total);
    let under = shortfall(load, n, total);
    let weight = load * n;
    double::lemma_counted();
    lemma_excess(load, n, total);
    lemma_shortfall(load, n, total);
    if total * (n + 1) < 0x20_0000_0000_0000 || total % n == 0 {
        law_counts_exactly(n, total);
    }
    if weight > total {
        let up = exact_excess(load, n, total);
        double::lemma_ceiling((weight - total) as nat, n);
        assert(over * n <= up * n && up * n <= over * n + n) by (nonlinear_arith)
            requires
                over <= up <= over + 1,
        ;
    }
    if weight < total {
        let up = exact_shortfall(load, n, total);
        double::lemma_ceiling((total - weight) as nat, n);
        assert(under * n <= up * n && up * n <= under * n + n) by (nonlinear_arith)
            requires
                under <= up <= under + 1,
        ;
    }
}

/// Excess and shortfall are distances from the average in doubles.
pub proof fn law_distance_from_average(load: nat, partitions: nat, total: nat)
    ensures
        ({
            let one = power2::pow2(1074);
            let average = double::nearest(
                double::nearest(total * one, 1) * one,
                double::nearest(partitions * one, 1),
            );
            &&& excess(load, partitions, total) == above(load, average)
            &&& shortfall(load, partitions, total) == below(load, average)
        }),
{
}

/// The rounded-up average is the least whole number that is not below the average.
pub proof fn law_average_ceiling(partitions: nat, total: nat)
    requires
        partitions > 0,
    ensures
        total <= average_ceiling(partitions, total) * partitions < total + partitions,
{
    double::lemma_ceiling(total, partitions);
}

} // verus!
