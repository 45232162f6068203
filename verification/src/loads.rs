//! The load of each partition: how many keys it holds.

use crate::double;
use crate::threshold::Threshold;
use vstd::arithmetic::power2;
use vstd::prelude::*;

verus! {

/// The sum of all loads.
pub open spec fn sum(loads: Seq<nat>) -> nat
    decreases loads.len(),
{
    if loads.len() == 0 {
        0
    } else {
        sum(loads.drop_last()) + loads.last()
    }
}

/// Loads counted in machine integers, as numbers.
pub open spec fn counted(sizes: Seq<usize>) -> Seq<nat> {
    Seq::new(sizes.len(), |i: int| sizes[i] as nat)
}

/// The partitions below `count`, in order.
pub open spec fn partitions(count: nat) -> Seq<usize> {
    Seq::new(count, |i: int| i as usize)
}

/// The load of `partition` exceeds `threshold` times the average.
pub open spec fn is_hot(loads: Seq<nat>, threshold: Threshold, partition: usize) -> bool {
    threshold.exceeded_by(loads[partition as int], double::average(loads.len(), sum(loads)))
}

/// The load of `partition` is below `threshold` times the average.
pub open spec fn is_underloaded(loads: Seq<nat>, threshold: Threshold, partition: usize) -> bool {
    threshold.unmet_by(loads[partition as int], double::average(loads.len(), sum(loads)))
}

/// The hot partitions in order; none where nothing is loaded at all.
pub open spec fn hotspots(loads: Seq<nat>, threshold: Threshold) -> Seq<usize> {
    if sum(loads) == 0 {
        Seq::empty()
    } else {
        partitions(loads.len()).filter(|p: usize| is_hot(loads, threshold, p))
    }
}

/// The underloaded partitions in order; none where nothing is loaded at all.
pub open spec fn underloaded(loads: Seq<nat>, threshold: Threshold) -> Seq<usize> {
    if sum(loads) == 0 {
        Seq::empty()
    } else {
        partitions(loads.len()).filter(|p: usize| is_underloaded(loads, threshold, p))
    }
}

/// There are few enough keys for doubles to tell every load from the average.
pub open spec fn is_modest(loads: Seq<nat>) -> bool {
    loads.len() <= usize::MAX && double::is_counted(sum(loads))
}

/// The sum of the loads of the chosen partitions.
pub open spec fn sum_over(loads: Seq<nat>, chosen: Seq<usize>) -> nat
    decreases chosen.len(),
{
    if chosen.len() == 0 {
        0
    } else {
        sum_over(loads, chosen.drop_last()) + loads[chosen.last() as int]
    }
}

/// Adds up all sizes.
pub(crate) fn add_up(sizes: &Vec<usize>) -> (total: usize)
    requires
        sum(counted(sizes@)) <= usize::MAX,
    ensures
        total == sum(counted(sizes@)),
{
    let mut total: usize = 0;
    for i in 0..sizes.len()
        invariant
            total == sum(counted(sizes@).take(i as int)),
            sum(counted(sizes@)) <= usize::MAX,
    {
        let ghost loads = counted(sizes@);
        proof {
            assert(loads.take(i + 1).drop_last() =~= loads.take(i as int));
            lemma_sum_take(loads, i + 1);
        }
        total = total + sizes[i];
    }
    assert(counted(sizes@).take(sizes.len() as int) =~= counted(sizes@));
    total
}

/// The product of a load and a number of partitions, which 128 bits always hold.
pub(crate) fn weigh(load: usize, partitions: usize) -> (weight: u128)
    ensures
        weight == load * partitions,
{
    assert(load * partitions <= u128::MAX) by (nonlinear_arith)
        requires
            load <= u64::MAX,
            partitions <= u64::MAX,
    ;
    load as u128 * partitions as u128
}

/// Replacing a load swaps it for the new one in the sum.
pub proof fn lemma_sum_update(loads: Seq<nat>, partition: int, load: nat)
    requires
        0 <= partition < loads.len(),
    ensures
        sum(loads.update(partition, load)) + loads[partition] == sum(loads) + load,
    decreases loads.len(),
{
    let after = loads.update(partition, load);
    if partition == loads.len() - 1 {
        assert(after.drop_last() =~= loads.drop_last());
    } else {
        lemma_sum_update(loads.drop_last(), partition, load);
        assert(after.drop_last() =~= loads.drop_last().update(partition, load));
    }
}

/// Replacing a load swaps it for the new one in the sum over those chosen, once each, where it
/// is among them.
pub proof fn lemma_sum_over_update(
    loads: Seq<nat>,
    chosen: Seq<usize>,
    partition: usize,
    load: nat,
)
    requires
        partition < loads.len(),
        chosen.no_duplicates(),
        forall|i: int| 0 <= i < chosen.len() ==> #[trigger] chosen[i] < loads.len(),
    ensures
        ({
            let after = loads.update(partition as int, load);
            &&& !chosen.contains(partition) ==> sum_over(after, chosen) == sum_over(loads, chosen)
            &&& chosen.contains(partition) ==> sum_over(after, chosen) + loads[partition as int]
                == sum_over(loads, chosen) + load
        }),
    decreases chosen.len(),
{
    if chosen.len() > 0 {
        let fewer = chosen.drop_last();
        let last = chosen.last();
        lemma_sum_over_update(loads, fewer, partition, load);
        assert(chosen.contains(last));
        assert(chosen =~= fewer.push(last));
        if fewer.contains(partition) {
            let i = choose|i: int| 0 <= i < fewer.len() && fewer[i] == partition;
            assert(chosen[i] == partition);
            assert(chosen.contains(partition));
            assert(chosen[i] != chosen[chosen.len() - 1]);
        } else if chosen.contains(partition) {
            let i = choose|i: int| 0 <= i < chosen.len() && chosen[i] == partition;
            assert(i == chosen.len() - 1 || fewer[i] == partition);
        }
    }
}

/// Partitions picked by a predicate are in range, picked once each, and hold no more than all
/// do.
pub proof fn lemma_picked(loads: Seq<nat>, count: nat, pred: spec_fn(usize) -> bool)
    requires
        count <= loads.len() <= usize::MAX,
    ensures
        partitions(count).filter(pred).len() <= count,
        partitions(count).filter(pred).no_duplicates(),
        forall|i: int|
            0 <= i < partitions(count).filter(pred).len() ==> #[trigger] partitions(count).filter(
                pred,
            )[i] < count,
        forall|i: int|
            0 <= i < partitions(count).filter(pred).len() ==> pred(
                #[trigger] partitions(count).filter(pred)[i],
            ),
        forall|p: usize|
            partitions(count).filter(pred).contains(p) <==> p < count && #[trigger] pred(p),
        sum_over(loads, partitions(count).filter(pred)) <= sum(loads.take(count as int)),
    decreases count,
{
    if count == 0 {
        assert(partitions(0).filter(pred) =~= Seq::<usize>::empty()) by {
            reveal(Seq::filter);
        }
    } else {
        let last = (count - 1) as usize;
        let fewer = partitions((count - 1) as nat);
        lemma_picked(loads, (count - 1) as nat, pred);
        assert(partitions(count) =~= fewer.push(last));
        fewer.lemma_filter_push(last, pred);
        assert(loads.take(count as int).drop_last() =~= loads.take(count - 1));
        let picked = partitions(count).filter(pred);
        if pred(last) {
            assert(picked.drop_last() =~= fewer.filter(pred));
        }
        assert forall|p: usize| picked.contains(p) <==> p < count && #[trigger] pred(p) by {
            if picked.contains(p) {
                let i = choose|i: int| 0 <= i < picked.len() && picked[i] == p;
                if i < fewer.filter(pred).len() {
                    assert(fewer.filter(pred)[i] == p);
                }
            }
            if p < count && pred(p) {
                if p == last {
                    assert(picked.last() == p);
                } else {
                    assert(fewer.filter(pred).contains(p));
                    let i = choose|i: int|
                        0 <= i < fewer.filter(pred).len() && fewer.filter(pred)[i] == p;
                    assert(picked[i] == p);
                }
            }
        }
    }
}

/// No load is more than all together.
pub proof fn lemma_load_within(loads: Seq<nat>, partition: int)
    requires
        0 <= partition < loads.len(),
    ensures
        loads[partition] <= sum(loads),
{
    lemma_sum_update(loads, partition, 0);
}

/// A partition that is hot at a threshold of one or more is above the average in doubles.
pub proof fn lemma_hot_exceeds(loads: Seq<nat>, threshold: Threshold, partition: usize)
    requires
        partition < loads.len(),
        threshold.at_least(1, 1),
        is_hot(loads, threshold, partition),
    ensures
        double::converted(loads[partition as int]) > double::average(loads.len(), sum(loads)),
{
    let average = double::average(loads.len(), sum(loads));
    double::lemma_converted_positive(loads.len());
    double::lemma_nearest_is_double(
        double::converted(sum(loads)) * power2::pow2(1074),
        double::converted(loads.len()),
    );
    threshold.lemma_above_multiple(1, 1, loads[partition as int], average, average);
}

/// The partitions that are underloaded at a threshold of one are those below the average in
/// doubles.
pub proof fn lemma_underloaded_lacks(loads: Seq<nat>, partition: usize)
    requires
        partition < loads.len(),
    ensures
        is_underloaded(loads, Threshold::one(), partition) <==> double::converted(
            loads[partition as int],
        ) < double::average(loads.len(), sum(loads)),
{
    double::lemma_converted_positive(loads.len());
    double::lemma_nearest_is_double(
        double::converted(sum(loads)) * power2::pow2(1074),
        double::converted(loads.len()),
    );
    Threshold::lemma_one(loads[partition as int], double::average(loads.len(), sum(loads)));
}

/// A partition that is hot at a threshold of one or more is above the average.
pub proof fn lemma_hot_is_above(loads: Seq<nat>, threshold: Threshold, partition: usize)
    requires
        is_modest(loads),
        partition < loads.len(),
        threshold.at_least(1, 1),
        is_hot(loads, threshold, partition),
    ensures
        loads[partition as int] * loads.len() > sum(loads),
{
    double::lemma_counted();
    let load = loads[partition as int];
    lemma_hot_exceeds(loads, threshold, partition);
    if load * loads.len() <= sum(loads) {
        if loads.len() <= power2::pow2(53) {
            double::lemma_up_to_average(load, loads.len(), sum(loads));
        } else {
            let count = loads.len();
            assert(load == 0) by (nonlinear_arith)
                requires
                    load * count < count,
            ;
            double::lemma_converted_from_one(load);
        }
    }
}

/// The partitions that are underloaded at a threshold of one are those below the average.
pub proof fn lemma_underloaded_is_below(loads: Seq<nat>, partition: usize)
    requires
        is_modest(loads),
        partition < loads.len(),
    ensures
        is_underloaded(loads, Threshold::one(), partition) <==> loads[partition as int]
            * loads.len() < sum(loads),
{
    double::lemma_counted();
    let load = loads[partition as int];
    lemma_underloaded_lacks(loads, partition);
    lemma_load_within(loads, partition as int);
    if loads.len() > power2::pow2(53) {
        let count = loads.len();
        assert(load > 0 ==> load * count >= count) by (nonlinear_arith);
        assert(0 * count == 0) by (nonlinear_arith);
        double::lemma_average_of_many(loads.len(), sum(loads));
        double::lemma_converted_from_one(load);
    } else if load * loads.len() < sum(loads) {
        double::lemma_below_average(load, loads.len(), sum(loads));
    } else {
        double::lemma_from_average(load, loads.len(), sum(loads));
    }
}

/// Where a load is above the average, another is below it.
pub proof fn lemma_some_below(loads: Seq<nat>, high: int)
    requires
        0 <= high < loads.len(),
        loads[high] * loads.len() > sum(loads),
    ensures
        exists|p: int| 0 <= p < loads.len() && #[trigger] loads[p] * loads.len() < sum(loads),
{
    let count = loads.len();
    let total = sum(loads);
    if forall|p: int| 0 <= p < loads.len() ==> #[trigger] loads[p] * count >= total {
        lemma_weighted_sum(loads, count, total, high, loads.len() as int);
        assert(loads.take(loads.len() as int) =~= loads);
        assert(total * count == count * total) by (nonlinear_arith);
    }
}

/// Where a load is below the average, another is above it.
pub proof fn lemma_some_above(loads: Seq<nat>, low: int)
    requires
        0 <= low < loads.len(),
        loads[low] * loads.len() < sum(loads),
    ensures
        exists|p: int| 0 <= p < loads.len() && #[trigger] loads[p] * loads.len() > sum(loads),
{
    let count = loads.len();
    let total = sum(loads);
    if forall|p: int| 0 <= p < loads.len() ==> #[trigger] loads[p] * count <= total {
        lemma_weighted_cap(loads, count, total, low, loads.len() as int);
        assert(loads.take(loads.len() as int) =~= loads);
        assert(total * count == count * total) by (nonlinear_arith);
    }
}

/// Where no load times `factor` surpasses `bar`, and that of `low` does not reach it, neither
/// do their sums.
proof fn lemma_weighted_cap(loads: Seq<nat>, factor: nat, bar: nat, low: int, upto: int)
    requires
        0 <= low < loads.len(),
        0 <= upto <= loads.len(),
        loads[low] * factor < bar,
        forall|p: int| 0 <= p < loads.len() ==> #[trigger] loads[p] * factor <= bar,
    ensures
        sum(loads.take(upto)) * factor <= upto * bar,
        low < upto ==> sum(loads.take(upto)) * factor < upto * bar,
    decreases upto,
{
    if upto > 0 {
        lemma_weighted_cap(loads, factor, bar, low, upto - 1);
        assert(loads.take(upto).drop_last() =~= loads.take(upto - 1));
        let before = sum(loads.take(upto - 1));
        let load = loads[upto - 1];
        assert(loads[upto - 1] * factor <= bar);
        assert((before + load) * factor == before * factor + load * factor) by (nonlinear_arith);
        assert(upto * bar == (upto - 1) * bar + bar) by (nonlinear_arith);
    } else {
        assert(0 * factor == 0) by (nonlinear_arith);
        assert(0 * bar == 0) by (nonlinear_arith);
    }
}

/// Where every load times `factor` reaches `bar`, and that of `high` surpasses it, so do
/// their sums.
proof fn lemma_weighted_sum(loads: Seq<nat>, factor: nat, bar: nat, high: int, upto: int)
    requires
        0 <= high < loads.len(),
        0 <= upto <= loads.len(),
        loads[high] * factor > bar,
        forall|p: int| 0 <= p < loads.len() ==> #[trigger] loads[p] * factor >= bar,
    ensures
        sum(loads.take(upto)) * factor >= upto * bar,
        high < upto ==> sum(loads.take(upto)) * factor > upto * bar,
    decreases upto,
{
    if upto > 0 {
        lemma_weighted_sum(loads, factor, bar, high, upto - 1);
        assert(loads.take(upto).drop_last() =~= loads.take(upto - 1));
        let before = sum(loads.take(upto - 1));
        let load = loads[upto - 1];
        assert(loads[upto - 1] * factor >= bar);
        assert((before + load) * factor == before * factor + load * factor) by (nonlinear_arith);
        assert(upto * bar == (upto - 1) * bar + bar) by (nonlinear_arith);
    } else {
        assert(0 * factor == 0) by (nonlinear_arith);
        assert(0 * bar == 0) by (nonlinear_arith);
    }
}

/// A prefix weighs at most as much as the whole.
pub proof fn lemma_sum_take(loads: Seq<nat>, count: int)
    requires
        0 <= count <= loads.len(),
    ensures
        sum(loads.take(count)) <= sum(loads),
    decreases loads.len(),
{
    if count == loads.len() {
        assert(loads.take(count) =~= loads);
    } else {
        lemma_sum_take(loads.drop_last(), count);
        assert(loads.drop_last().take(count) =~= loads.take(count));
    }
}

/// Equal loads add up to their product with the number of partitions.
pub proof fn lemma_equal_sum(loads: Seq<nat>, load: nat)
    requires
        forall|p: int| 0 <= p < loads.len() ==> #[trigger] loads[p] == load,
    ensures
        sum(loads) == loads.len() * load,
    decreases loads.len(),
{
    if loads.len() > 0 {
        lemma_equal_sum(loads.drop_last(), load);
        assert(loads.len() * load == (loads.len() - 1) * load + load) by (nonlinear_arith)
            requires
                loads.len() > 0,
        ;
    } else {
        assert(0 * load == 0) by (nonlinear_arith);
    }
}

/// Loads of at most `average` that add up to so many times it are all equal to it.
pub proof fn lemma_level(loads: Seq<nat>, average: nat)
    requires
        sum(loads) == loads.len() * average,
        forall|p: int| 0 <= p < loads.len() ==> #[trigger] loads[p] <= average,
    ensures
        forall|p: int| 0 <= p < loads.len() ==> #[trigger] loads[p] == average,
{
    assert forall|p: int| 0 <= p < loads.len() implies #[trigger] loads[p] == average by {
        lemma_sum_capped(loads, average, p);
    }
}

/// Equal loads of the chosen partitions add up to their product with the number of choices.
pub proof fn lemma_sum_over_level(loads: Seq<nat>, chosen: Seq<usize>, load: nat)
    requires
        forall|p: int| 0 <= p < loads.len() ==> #[trigger] loads[p] == load,
        forall|i: int| 0 <= i < chosen.len() ==> #[trigger] chosen[i] < loads.len(),
    ensures
        sum_over(loads, chosen) == chosen.len() * load,
    decreases chosen.len(),
{
    if chosen.len() > 0 {
        let fewer = chosen.drop_last();
        let rest = fewer.len();
        lemma_sum_over_level(loads, fewer, load);
        assert((rest + 1) * load == rest * load + load) by (nonlinear_arith);
        assert(chosen.last() < loads.len());
        assert(chosen.len() * load == rest * load + load);
    } else {
        assert(0 * load == 0) by (nonlinear_arith);
    }
}

/// Loads of at most `cap` add up to less than so many times `cap` where one is below it.
proof fn lemma_sum_capped(loads: Seq<nat>, cap: nat, low: int)
    requires
        0 <= low < loads.len(),
        forall|p: int| 0 <= p < loads.len() ==> #[trigger] loads[p] <= cap,
    ensures
        sum(loads) + cap <= loads.len() * cap + loads[low],
    decreases loads.len(),
{
    let fewer = loads.drop_last();
    let rest = fewer.len();
    assert((rest + 1) * cap == rest * cap + cap) by (nonlinear_arith);
    assert(loads.len() * cap == rest * cap + cap);
    assert(sum(loads) == sum(fewer) + loads.last());
    if low < rest {
        lemma_sum_capped(fewer, cap, low);
    } else if rest > 0 {
        lemma_sum_capped(fewer, cap, 0);
        assert(fewer[0] <= cap);
    } else {
        assert(0 * cap == 0) by (nonlinear_arith);
    }
}

/// Nothing adds up to zero, and one more load adds itself.
pub proof fn law_sum(loads: Seq<nat>, load: nat)
    ensures
        sum(Seq::<nat>::empty()) == 0,
        sum(loads.push(load)) == sum(loads) + load,
{
    assert(loads.push(load).drop_last() =~= loads);
}

/// No choice adds up to zero, and one more choice adds the load of its partition.
pub proof fn law_sum_over(loads: Seq<nat>, chosen: Seq<usize>, partition: usize)
    ensures
        sum_over(loads, Seq::<usize>::empty()) == 0,
        sum_over(loads, chosen.push(partition)) == sum_over(loads, chosen)
            + loads[partition as int],
{
    assert(chosen.push(partition).drop_last() =~= chosen);
}

/// Counted loads are the loads one by one.
pub proof fn law_counted(sizes: Seq<usize>)
    ensures
        counted(sizes).len() == sizes.len(),
        forall|i: int| 0 <= i < sizes.len() ==> #[trigger] counted(sizes)[i] == sizes[i],
{
}

/// Loads that a machine integer and a double can count are modest.
pub proof fn law_modest(loads: Seq<nat>)
    ensures
        is_modest(loads) <==> loads.len() <= usize::MAX && sum(loads) < 0x20_0000_0000_0000 && sum(
            loads,
        ) <= usize::MAX,
{
}

/// The picked partitions are in order.
proof fn lemma_picked_ascend(count: nat, pred: spec_fn(usize) -> bool)
    requires
        count <= usize::MAX,
    ensures
        forall|i: int, j: int|
            0 <= i < j < partitions(count).filter(pred).len() ==> #[trigger] partitions(
                count,
            ).filter(pred)[i] < #[trigger] partitions(count).filter(pred)[j],
        forall|i: int|
            0 <= i < partitions(count).filter(pred).len() ==> #[trigger] partitions(count).filter(
                pred,
            )[i] < count,
    decreases count,
{
    if count == 0 {
        reveal(Seq::filter);
    } else {
        let last = (count - 1) as usize;
        let fewer = partitions((count - 1) as nat);
        lemma_picked_ascend((count - 1) as nat, pred);
        assert(partitions(count) =~= fewer.push(last));
        fewer.lemma_filter_push(last, pred);
        let picked = partitions(count).filter(pred);
        let before = fewer.filter(pred);
        assert forall|i: int| 0 <= i < before.len() implies picked[i] == #[trigger] before[i] by {}
        assert forall|i: int, j: int| 0 <= i < j < picked.len() implies #[trigger] picked[i]
            < #[trigger] picked[j] by {
            assert(picked[i] == before[i]);
            if j < before.len() {
                assert(picked[j] == before[j]);
            }
        }
        assert forall|i: int| 0 <= i < picked.len() implies #[trigger] picked[i] < count by {
            if i < before.len() {
                assert(picked[i] == before[i]);
            }
        }
    }
}

/// The hotspots come in order, and they are all the partitions, whatever their number, whose
/// load as a double exceeds the product of the threshold and the average: the load, the total
/// and the number of partitions are rounded to doubles, then their quotient, then the product.
/// Without any load there is none.
pub proof fn law_hotspots_are_all_above(loads: Seq<nat>, threshold: Threshold)
    requires
        loads.len() <= usize::MAX,
    ensures
        ({
            let hot = hotspots(loads, threshold);
            let one = power2::pow2(1074);
            let average = double::nearest(
                double::nearest(sum(loads) * one, 1) * one,
                double::nearest(loads.len() * one, 1),
            );
            &&& forall|i: int, j: int|
                0 <= i < j < hot.len() ==> #[trigger] hot[i] < #[trigger] hot[j]
            &&& forall|p: usize| #[trigger]
                hot.contains(p) <==> p < loads.len() && sum(loads) > 0 && match threshold {
                    Threshold::NotANumber => false,
                    Threshold::NegativeInfinity => true,
                    Threshold::PositiveInfinity => false,
                    Threshold::Finite { negative: false, significand, exponent } => double::nearest(
                        loads[p as int] * one,
                        1,
                    ) > double::nearest(
                        average * (significand as nat * power2::pow2(exponent as nat)),
                        one,
                    ),
                    Threshold::Finite { negative: true, significand, exponent } => double::nearest(
                        loads[p as int] * one,
                        1,
                    ) > -double::nearest(
                        average * (significand as nat * power2::pow2(exponent as nat)),
                        one,
                    ),
                }
        }),
{
    let pred = |p: usize| is_hot(loads, threshold, p);
    lemma_picked(loads, loads.len(), pred);
    lemma_picked_ascend(loads.len(), pred);
    let hot = hotspots(loads, threshold);
    assert forall|p: usize| #[trigger] hot.contains(p) <==> p < loads.len() && sum(loads) > 0
        && is_hot(loads, threshold, p) by {
        if sum(loads) > 0 {
            assert(pred(p) == is_hot(loads, threshold, p));
        }
    }
}

/// The underloaded partitions come in order, and they are all the partitions, whatever their
/// number, whose load as a double is below the product of the threshold and the average,
/// rounded as for hotspots. Without any load there is none.
pub proof fn law_underloaded_are_all_below(loads: Seq<nat>, threshold: Threshold)
    requires
        loads.len() <= usize::MAX,
    ensures
        ({
            let under = underloaded(loads, threshold);
            let one = power2::pow2(1074);
            let average = double::nearest(
                double::nearest(sum(loads) * one, 1) * one,
                double::nearest(loads.len() * one, 1),
            );
            &&& forall|i: int, j: int|
                0 <= i < j < under.len() ==> #[trigger] under[i] < #[trigger] under[j]
            &&& forall|p: usize| #[trigger]
                under.contains(p) <==> p < loads.len() && sum(loads) > 0 && match threshold {
                    Threshold::NotANumber => false,
                    Threshold::NegativeInfinity => false,
                    Threshold::PositiveInfinity => true,
                    Threshold::Finite { negative: false, significand, exponent } => double::nearest(
                        loads[p as int] * one,
                        1,
                    ) < double::nearest(
                        average * (significand as nat * power2::pow2(exponent as nat)),
                        one,
                    ),
                    Threshold::Finite { negative: true, significand, exponent } => false,
                }
        }),
{
    let pred = |p: usize| is_underloaded(loads, threshold, p);
    lemma_picked(loads, loads.len(), pred);
    lemma_picked_ascend(loads.len(), pred);
    let under = underloaded(loads, threshold);
    assert forall|p: usize| #[trigger] under.contains(p) <==> p < loads.len() && sum(loads) > 0
        && is_underloaded(loads, threshold, p) by {
        if sum(loads) > 0 {
            assert(pred(p) == is_underloaded(loads, threshold, p));
        }
    }
}

/// Detection in plain arithmetic, for numbers that doubles count: a load that exceeds the
/// threshold times the average by more than one part in 2^50 is reported as hot and not as
/// underloaded, and one that falls short of it by more than that is not reported as hot, and
/// as underloaded unless it is empty. The value of the threshold is
/// `significand * 2^(exponent - 1074)`.
pub proof fn law_detection_by_margin(
    loads: Seq<nat>,
    significand: u64,
    exponent: u16,
    partition: usize,
)
    requires
        partition < loads.len() <= 0x20_0000_0000_0000,
        loads.len() <= usize::MAX,
        0 < sum(loads) < 0x20_0000_0000_0000,
    ensures
        ({
            let threshold = Threshold::Finite { negative: false, significand, exponent };
            let units = significand as nat * power2::pow2(exponent as nat);
            let weight = loads[partition as int] * loads.len() * power2::pow2(1074);
            let bar = units * sum(loads);
            &&& weight * 0x4_0000_0000_0000 > bar * 0x4_0000_0000_0001 ==> hotspots(
                loads,
                threshold,
            ).contains(partition) && !underloaded(loads, threshold).contains(partition)
            &&& weight * 0x4_0000_0000_0000 < bar * 0x3_ffff_ffff_ffff ==> !hotspots(
                loads,
                threshold,
            ).contains(partition) && (loads[partition as int] > 0 ==> underloaded(
                loads,
                threshold,
            ).contains(partition))
        }),
{
    let threshold = Threshold::Finite { negative: false, significand, exponent };
    let p = power2::pow2(1074);
    let b = power2::pow2(53);
    let n = loads.len();
    let total = sum(loads);
    let load = loads[partition as int];
    let units = significand as nat * power2::pow2(exponent as nat);
    let average = double::average(n, total);
    let near = double::product(average, units);
    let hot = |q: usize| is_hot(loads, threshold, q);
    let low = |q: usize| is_underloaded(loads, threshold, q);
    lemma_picked(loads, n, hot);
    lemma_picked(loads, n, low);
    assert(hot(partition) == is_hot(loads, threshold, partition));
    assert(low(partition) == is_underloaded(loads, threshold, partition));
    double::lemma_counted();
    lemma_load_within(loads, partition as int);
    double::lemma_converted_exact(load);
    double::lemma_average_close(n, total);
    power2::lemma_pow2_pos(1074);
    double::lemma_nearest_near(average * units, p);
    lemma_wide_unit();
    if load > 0 {
        if near >= load * p {
            lemma_margin_above(load, n, total, units, average, near, p);
        }
        if near <= load * p {
            lemma_margin_below(load, n, total, units, average, near, p);
        }
    } else {
        assert(0 * p == 0) by (nonlinear_arith);
        assert(0 * n == 0) by (nonlinear_arith);
        assert(0 * n * p == 0) by (nonlinear_arith);
        assert(units * total >= 0) by (nonlinear_arith);
    }
}

/// One is a lot of units.
proof fn lemma_wide_unit()
    ensures
        power2::pow2(1074) > 0x4_0000_0000_0000 * 0x100,
{
    power2::lemma2_to64();
    power2::lemma_pow2_strictly_increases(64, 1074);
}

/// A product in doubles that reaches a load is not short of it by more than one part in 2^50.
proof fn lemma_margin_above(
    load: nat,
    n: nat,
    total: nat,
    units: nat,
    average: nat,
    near: nat,
    p: nat,
)
    requires
        load > 0,
        n > 0,
        p > 0x4_0000_0000_0000 * 0x100,
        near >= load * p,
        average * n * 0x20_0000_0000_0000 <= 0x20_0000_0000_0001 * (total * p),
        near * p * 0x20_0000_0000_0000 <= (average * units) * 0x20_0000_0000_0001 + p
            * 0x20_0000_0000_0000,
    ensures
        (load * n * p) * 0x4_0000_0000_0000 <= (units * total) * 0x4_0000_0000_0001,
{
    let b: int = 0x20_0000_0000_0000;
    let a: int = 0x4_0000_0000_0000;
    let w = load * n * p;
    let t = units * total;
    // Both roundings together, without the common factor.
    assert(w * (b * b) <= t * ((b + 1) * (b + 1)) + n * (b * b)) by {
        assert((near * p * b) * (n * b) <= ((average * units) * (b + 1) + p * b) * (n * b))
            by (nonlinear_arith)
            requires
                near * p * b <= (average * units) * (b + 1) + p * b,
                n * b >= 0,
        ;
        assert((near * p * b) * (n * b) >= (w * (b * b)) * p) by (nonlinear_arith)
            requires
                near >= load * p,
                w == load * n * p,
                n > 0,
                p > 0,
                b > 0,
        {
            assert(near * p >= (load * p) * p);
            assert((near * p) * (n * (b * b)) >= ((load * p) * p) * (n * (b * b)));
            assert((near * p * b) * (n * b) == (near * p) * (n * (b * b)));
            assert(((load * p) * p) * (n * (b * b)) == (w * (b * b)) * p);
        }
        assert(((average * units) * (b + 1) + p * b) * (n * b) == (average * n * b) * (units * (b
            + 1)) + (n * (b * b)) * p) by (nonlinear_arith);
        assert((average * n * b) * (units * (b + 1)) <= ((b + 1) * (total * p)) * (units * (b + 1)))
            by (nonlinear_arith)
            requires
                average * n * b <= (b + 1) * (total * p),
                units * (b + 1) >= 0,
        ;
        assert(((b + 1) * (total * p)) * (units * (b + 1)) == (t * ((b + 1) * (b + 1))) * p)
            by (nonlinear_arith)
            requires
                t == units * total,
        ;
        let left = w * (b * b);
        let right = t * ((b + 1) * (b + 1)) + n * (b * b);
        assert((t * ((b + 1) * (b + 1))) * p + (n * (b * b)) * p == right * p) by (nonlinear_arith)
            requires
                right == t * ((b + 1) * (b + 1)) + n * (b * b),
        ;
        assert(left <= right) by (nonlinear_arith)
            requires
                left * p <= right * p,
                p > 0,
        ;
    }
    assert(w >= n * p) by (nonlinear_arith)
        requires
            w == load * n * p,
            load >= 1,
            n > 0,
            p > 0,
    ;
    assert(n * p >= n * (a * 0x100)) by (nonlinear_arith)
        requires
            p >= a * 0x100,
            n > 0,
    ;
    assert(w * (b * b) == w * 0x400000000000000000000000000 && n * (b * b) == n * 0x400000000000000000000000000 && t * ((b + 1) * (b + 1)) == t
        * 0x400000000000040000000000001) by (nonlinear_arith)
        requires
            b == 0x20_0000_0000_0000,
    ;
    assert(n * (a * 0x100) == n * 0x400_0000_0000_0000) by (nonlinear_arith)
        requires
            a == 0x4_0000_0000_0000,
    ;
}

/// A product in doubles that does not surpass a load does not surpass it by more than one part
/// in 2^50.
proof fn lemma_margin_below(
    load: nat,
    n: nat,
    total: nat,
    units: nat,
    average: nat,
    near: nat,
    p: nat,
)
    requires
        load > 0,
        n > 0,
        p > 0x4_0000_0000_0000 * 0x100,
        near <= load * p,
        average * n * 0x20_0000_0000_0000 >= 0x1f_ffff_ffff_ffff * (total * p),
        near * p * 0x20_0000_0000_0000 + p * 0x20_0000_0000_0000 >= (average * units)
            * 0x1f_ffff_ffff_ffff,
    ensures
        (load * n * p) * 0x4_0000_0000_0000 >= (units * total) * 0x3_ffff_ffff_ffff,
{
    let b: int = 0x20_0000_0000_0000;
    let a: int = 0x4_0000_0000_0000;
    let w = load * n * p;
    let t = units * total;
    assert(w * (b * b) + n * (b * b) >= t * ((b - 1) * (b - 1))) by {
        assert((near * p * b + p * b) * (n * b) >= ((average * units) * (b - 1)) * (n * b))
            by (nonlinear_arith)
            requires
                near * p * b + p * b >= (average * units) * (b - 1),
                n * b >= 0,
        ;
        assert((near * p * b) * (n * b) <= (w * (b * b)) * p) by (nonlinear_arith)
            requires
                near <= load * p,
                w == load * n * p,
                n > 0,
                p > 0,
                b > 0,
        {
            assert(near * p <= (load * p) * p);
            assert((near * p) * (n * (b * b)) <= ((load * p) * p) * (n * (b * b)));
            assert((near * p * b) * (n * b) == (near * p) * (n * (b * b)));
            assert(((load * p) * p) * (n * (b * b)) == (w * (b * b)) * p);
        }
        assert((near * p * b + p * b) * (n * b) == (near * p * b) * (n * b) + (n * (b * b)) * p)
            by (nonlinear_arith);
        assert(((average * units) * (b - 1)) * (n * b) == (average * n * b) * (units * (b - 1)))
            by (nonlinear_arith);
        assert((average * n * b) * (units * (b - 1)) >= ((b - 1) * (total * p)) * (units * (b - 1)))
            by (nonlinear_arith)
            requires
                average * n * b >= (b - 1) * (total * p),
                units * (b - 1) >= 0,
        ;
        assert(((b - 1) * (total * p)) * (units * (b - 1)) == (t * ((b - 1) * (b - 1))) * p)
            by (nonlinear_arith)
            requires
                t == units * total,
        ;
        let left = w * (b * b) + n * (b * b);
        let right = t * ((b - 1) * (b - 1));
        assert((w * (b * b)) * p + (n * (b * b)) * p == left * p) by (nonlinear_arith)
            requires
                left == w * (b * b) + n * (b * b),
        ;
        assert(left >= right) by (nonlinear_arith)
            requires
                left * p >= right * p,
                p > 0,
        ;
    }
    assert(w >= n * p) by (nonlinear_arith)
        requires
            w == load * n * p,
            load >= 1,
            n > 0,
            p > 0,
    ;
    assert(n * p >= n * (a * 0x100)) by (nonlinear_arith)
        requires
            p >= a * 0x100,
            n > 0,
    ;
    assert(w * (b * b) == w * 0x400000000000000000000000000 && n * (b * b) == n * 0x400000000000000000000000000 && t * ((b - 1) * (b - 1)) == t
        * 0x3ffffffffffffc0000000000001) by (nonlinear_arith)
        requires
            b == 0x20_0000_0000_0000,
    ;
    assert(n * (a * 0x100) == n * 0x400_0000_0000_0000) by (nonlinear_arith)
        requires
            a == 0x4_0000_0000_0000,
    ;
}

} // verus!
