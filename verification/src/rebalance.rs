//! Moving keys from hotspots to underloaded partitions.

use crate::balance;
use crate::balance::TernaryBalance;
use crate::double;
use crate::double::Double;
use crate::excess;
use crate::loads;
use crate::partition_map;
use crate::partition_map::PartitionMap;
use crate::threshold::Threshold;
use vstd::prelude::*;

verus! {

/// One visit: `src` hands `dst` what `dst` lacks to the average, but at most `quota` keys.
/// Gives the table after it and the number of keys that went.
pub open spec fn visited<K>(
    table: Map<usize, Seq<K>>,
    count: usize,
    total: nat,
    src: usize,
    dst: usize,
    quota: nat,
) -> (Map<usize, Seq<K>>, nat) {
    let lacking = excess::shortfall(partition_map::keys_at(table, dst).len(), count as nat, total);
    let batch = if quota < lacking {
        quota
    } else {
        lacking
    };
    let moved = partition_map::movable(table, count, src, dst, batch);
    (partition_map::after_move(table, src, dst, moved), moved)
}

/// What is left of `quota` once `moved` keys went.
pub open spec fn left(quota: nat, moved: nat) -> nat {
    if moved < quota {
        (quota - moved) as nat
    } else {
        0
    }
}

/// The first `visits` visits of `src` to the partitions in `under`, in order. All of them
/// together hand out at most `quota` keys.
pub open spec fn drained<K>(
    table: Map<usize, Seq<K>>,
    count: usize,
    total: nat,
    src: usize,
    under: Seq<usize>,
    quota: nat,
    visits: nat,
) -> (Map<usize, Seq<K>>, nat)
    decreases visits,
{
    if visits == 0 {
        (table, 0)
    } else {
        let (before, moved) = drained(
            table,
            count,
            total,
            src,
            under,
            quota,
            (visits - 1) as nat,
        );
        let rest = left(quota, moved);
        let (after, more) = visited(before, count, total, src, under[visits - 1], rest);
        (after, moved + more)
    }
}

/// The first `sources` partitions in `hot`, in order, each visit all partitions in `under`.
/// The quota of a source for all its visits is its excess when its turn comes.
pub open spec fn passed<K>(
    table: Map<usize, Seq<K>>,
    count: usize,
    total: nat,
    hot: Seq<usize>,
    under: Seq<usize>,
    sources: nat,
) -> (Map<usize, Seq<K>>, nat)
    decreases sources,
{
    if sources == 0 {
        (table, 0)
    } else {
        let (before, moved) = passed(table, count, total, hot, under, (sources - 1) as nat);
        let src = hot[sources - 1];
        let quota = excess::excess(partition_map::keys_at(before, src).len(), count as nat, total);
        let (after, more) = drained(before, count, total, src, under, quota, under.len());
        (after, moved + more)
    }
}

/// The table after a rebalancing pass, and the number of keys that moved.
pub open spec fn rebalanced<K>(
    table: Map<usize, Seq<K>>,
    count: usize,
    threshold: Threshold,
) -> (Map<usize, Seq<K>>, nat) {
    let loads = partition_map::loads_of(table, count as nat);
    let hot = loads::hotspots(loads, threshold);
    let under = loads::underloaded(loads, Threshold::one());
    passed(table, count, partition_map::total_len(table), hot, under, hot.len())
}

/// Visit number `visit` of `src` moves nothing, or the partition that it goes to has an entry.
pub open spec fn visit_opens<K>(
    table: Map<usize, Seq<K>>,
    count: usize,
    total: nat,
    src: usize,
    under: Seq<usize>,
    quota: nat,
    visit: nat,
) -> bool {
    let (before, moved) = drained(table, count, total, src, under, quota, visit);
    let dst = under[visit as int];
    visited(before, count, total, src, dst, left(quota, moved)).1 > 0 ==> before.contains_key(dst)
}

/// So does visit number `visit` of source number `source` in a pass.
pub open spec fn turn_opens<K>(
    table: Map<usize, Seq<K>>,
    count: usize,
    total: nat,
    hot: Seq<usize>,
    under: Seq<usize>,
    source: nat,
    visit: nat,
) -> bool {
    let before = passed(table, count, total, hot, under, source).0;
    let src = hot[source as int];
    let quota = excess::excess(partition_map::keys_at(before, src).len(), count as nat, total);
    visit_opens(before, count, total, src, under, quota, visit)
}

/// No turn of the first `sources` sources in a pass goes to a partition without an entry.
pub open spec fn pass_opens<K>(
    table: Map<usize, Seq<K>>,
    count: usize,
    total: nat,
    hot: Seq<usize>,
    under: Seq<usize>,
    sources: nat,
) -> bool {
    forall|source: nat, visit: nat|
        source < sources && visit < under.len() ==> #[trigger] turn_opens(
            table,
            count,
            total,
            hot,
            under,
            source,
            visit,
        )
}

/// A rebalancing pass never moves keys to a partition without an entry. Where every
/// partition has one, as in a well-formed map, that goes without saying.
pub open spec fn can_rebalance<K>(
    table: Map<usize, Seq<K>>,
    count: usize,
    threshold: Threshold,
) -> bool {
    let loads = partition_map::loads_of(table, count as nat);
    let hot = loads::hotspots(loads, threshold);
    let under = loads::underloaded(loads, Threshold::one());
    partition_map::complete(table, count) || pass_opens(
        table,
        count,
        partition_map::total_len(table),
        hot,
        under,
        hot.len(),
    )
}

/// Two rows of partitions have nothing in common.
pub open spec fn are_apart(hot: Seq<usize>, under: Seq<usize>) -> bool {
    forall|p: usize| #[trigger] hot.contains(p) ==> !under.contains(p)
}

/// The number of keys that a table holds for `partition`.
pub open spec fn load_at<K>(table: Map<usize, Seq<K>>, partition: usize) -> nat {
    partition_map::keys_at(table, partition).len()
}

/// Two tables have the same entries and, over all of them, the same keys.
pub open spec fn same_holdings<K>(
    before: Map<usize, Seq<K>>,
    after: Map<usize, Seq<K>>,
    count: usize,
) -> bool {
    &&& after.dom() == before.dom()
    &&& partition_map::all_keys(after) == partition_map::all_keys(before)
    &&& partition_map::total_len(after) == partition_map::total_len(before)
    &&& loads::sum(partition_map::loads_of(after, count as nat)) == loads::sum(
        partition_map::loads_of(before, count as nat),
    )
}

/// Rebalances a map by moving keys from hotspot partitions to underloaded ones, in a single
/// pass. Each hotspot hands out its excess, as far as it is lacking elsewhere. Returns the
/// number of keys that moved. How far a partition is from the average is computed in double
/// precision.
///
/// A key that moves twice counts twice, and the count has to fit a machine integer. At a
/// threshold of one or more no key moves twice; at a lower one, by `lemma_effort`, the second
/// alternative is enough.
pub fn rebalance<K: Clone>(map: &mut PartitionMap<K>, hotspot_threshold: Threshold) -> (moved: usize)
    requires
        can_rebalance(old(map)@, old(map).count(), hotspot_threshold),
        loads::sum(old(map).loads()) <= usize::MAX,
        loads::hotspots(old(map).loads(), hotspot_threshold).len() > 0 ==> partition_map::total_len(
            old(map)@,
        ) <= usize::MAX,
        ({
            ||| hotspot_threshold.at_least(1, 1)
            ||| double::is_counted(partition_map::total_len(old(map)@)) && partition_map::total_len(
                old(map)@,
            ) + old(map).count() <= usize::MAX
            ||| rebalanced(old(map)@, old(map).count(), hotspot_threshold).1 <= usize::MAX
        }),
    ensures
        final(map).count() == old(map).count(),
        (final(map)@, moved as nat) == rebalanced(old(map)@, old(map).count(), hotspot_threshold),
        same_holdings(old(map)@, final(map)@, old(map).count()),
        old(map).well_formed() ==> final(map).well_formed(),
{
    let ghost table = map@;
    let ghost count = map.count();
    let ghost total = partition_map::total_len(table);
    let ghost loads = map.loads();
    proof {
        map.lemma_finite();
        partition_map::lemma_loads_total(table, count as nat);
        lemma_selected(loads, hotspot_threshold);
        lemma_selected(loads, Threshold::one());
        lemma_effort(table, count, hotspot_threshold);
        lemma_opens(table, count, hotspot_threshold);
    }
    let hot: Vec<usize> = map.detect_hotspots(hotspot_threshold);
    let under: Vec<usize> = map.detect_underloaded(
        Threshold::Finite { negative: false, significand: 1, exponent: 1074 },
    );
    let mut moved: usize = 0;
    for i in 0..hot.len()
        invariant
            map.count() == count,
            table.dom().finite(),
            pass_opens(table, count, total, hot@, under@, hot@.len()),
            total == partition_map::total_len(table),
            hot@.len() > 0 ==> total <= usize::MAX,
            passed(table, count, total, hot@, under@, hot@.len()).1 <= usize::MAX,
            (map@, moved as nat) == passed(table, count, total, hot@, under@, i as nat),
            forall|j: int| 0 <= j < hot@.len() ==> #[trigger] hot@[j] < count,
            forall|j: int| 0 <= j < under@.len() ==> #[trigger] under@[j] < count,
    {
        let src: usize = hot[i];
        proof {
            lemma_passed(table, count, total, hot@, under@, i as nat);
            lemma_passed_grows(table, count, total, hot@, under@, (i + 1) as nat, hot@.len());
        }
        let average: Double = Double::averaging(map.num_partitions(), map.total());
        let mut to_move: usize = excess::excess_over(map.len(src), average);
        let ghost quota = to_move as nat;
        let ghost before = map@;
        let ghost so_far = moved as nat;
        proof {
            assert forall|visit: nat| visit < under@.len() implies #[trigger] visit_opens(
                before,
                count,
                total,
                src,
                under@,
                quota,
                visit,
            ) by {
                assert(turn_opens(table, count, total, hot@, under@, i as nat, visit));
            }
        }
        let mut j: usize = 0;
        while j < under.len() && to_move > 0
            invariant
                j <= under@.len(),
                map.count() == count,
                average.is_moderate(),
                average.units() == double::average(count as nat, total),
                src < count,
                before.dom().finite(),
                forall|visit: nat|
                    visit < under@.len() ==> #[trigger] visit_opens(
                        before,
                        count,
                        total,
                        src,
                        under@,
                        quota,
                        visit,
                    ),
                so_far + drained(before, count, total, src, under@, quota, under@.len()).1
                    <= usize::MAX,
                map@ == drained(before, count, total, src, under@, quota, j as nat).0,
                moved == so_far + drained(before, count, total, src, under@, quota, j as nat).1,
                quota == to_move + drained(before, count, total, src, under@, quota, j as nat).1,
                forall|k: int| 0 <= k < under@.len() ==> #[trigger] under@[k] < count,
            decreases under@.len() - j,
        {
            let dst: usize = under[j];
            proof {
                lemma_drained(before, count, total, src, under@, quota, (j + 1) as nat);
                lemma_drained_grows(
                    before,
                    count,
                    total,
                    src,
                    under@,
                    quota,
                    (j + 1) as nat,
                    under@.len(),
                );
                assert(visit_opens(before, count, total, src, under@, quota, j as nat));
            }
            let need: usize = excess::shortfall_to(map.len(dst), average);
            let batch: usize = if to_move < need {
                to_move
            } else {
                need
            };
            let went: usize = map.move_items(src, dst, batch);
            moved = moved + went;
            to_move = to_move - went;
            j = j + 1;
        }
        proof {
            if j < under@.len() {
                lemma_drained_spent(
                    before,
                    count,
                    total,
                    src,
                    under@,
                    quota,
                    j as nat,
                    under@.len(),
                );
            }
        }
    }
    proof {
        lemma_passed(table, count, total, hot@, under@, hot@.len());
        assert forall|p: usize| map@.contains_key(p) == table.contains_key(p) by {
            assert(map@.dom().contains(p) == table.dom().contains(p));
        }
    }
    moved
}

/// What a visit does to the table.
proof fn lemma_visited<K>(
    table: Map<usize, Seq<K>>,
    count: usize,
    total: nat,
    src: usize,
    dst: usize,
    quota: nat,
)
    requires
        table.dom().finite(),
        count > 0,
        visited(table, count, total, src, dst, quota).1 > 0 ==> table.contains_key(dst),
    ensures
        ({
            let (after, moved) = visited(table, count, total, src, dst, quota);
            &&& same_holdings(table, after, count)
            &&& moved <= quota
            &&& load_at(after, src) + moved == load_at(table, src)
            &&& src == dst ==> moved == 0
            &&& src != dst ==> load_at(after, dst) == load_at(table, dst) + moved
            &&& moved > 0 && double::is_counted(total) ==> load_at(after, dst)
                <= excess::average_ceiling(count as nat, total)
            &&& forall|p: usize|
                p != src && p != dst ==> #[trigger] load_at(after, p) == load_at(table, p)
        }),
{
    let (after, moved) = visited(table, count, total, src, dst, quota);
    partition_map::lemma_move_keeps(table, count, src, dst, moved);
    if double::is_counted(total) {
        excess::lemma_shortfall(load_at(table, dst), count as nat, total);
    }
}

/// What a row of visits by one source does to the table.
proof fn lemma_drained<K>(
    table: Map<usize, Seq<K>>,
    count: usize,
    total: nat,
    src: usize,
    under: Seq<usize>,
    quota: nat,
    visits: nat,
)
    requires
        table.dom().finite(),
        count > 0,
        visits <= under.len(),
        forall|visit: nat|
            visit < visits ==> #[trigger] visit_opens(
                table,
                count,
                total,
                src,
                under,
                quota,
                visit,
            ),
    ensures
        ({
            let (after, moved) = drained(table, count, total, src, under, quota, visits);
            let top = excess::average_ceiling(count as nat, total);
            &&& same_holdings(table, after, count)
            &&& load_at(after, src) + moved == load_at(table, src)
            &&& moved <= quota
            &&& forall|p: usize|
                p != src ==> load_at(table, p) <= #[trigger] load_at(after, p)
            &&& forall|p: usize|
                !under.contains(p) && p != src ==> #[trigger] load_at(after, p) == load_at(table, p)
            &&& double::is_counted(total) ==> forall|p: usize|
                #[trigger] load_at(after, p) <= load_at(table, p) || load_at(after, p) <= top
        }),
    decreases visits,
{
    if visits > 0 {
        let (before, moved) = drained(
            table,
            count,
            total,
            src,
            under,
            quota,
            (visits - 1) as nat,
        );
        let dst = under[visits - 1];
        lemma_drained(table, count, total, src, under, quota, (visits - 1) as nat);
        assert(visit_opens(table, count, total, src, under, quota, (visits - 1) as nat));
        lemma_visited(before, count, total, src, dst, left(quota, moved));
        assert(under.contains(dst));
    }
}

/// What a pass of several sources does to the table.
proof fn lemma_passed<K>(
    table: Map<usize, Seq<K>>,
    count: usize,
    total: nat,
    hot: Seq<usize>,
    under: Seq<usize>,
    sources: nat,
)
    requires
        table.dom().finite(),
        sources <= hot.len(),
        forall|i: int| 0 <= i < hot.len() ==> #[trigger] hot[i] < count,
        pass_opens(table, count, total, hot, under, sources),
    ensures
        ({
            let (after, moved) = passed(table, count, total, hot, under, sources);
            let top = excess::average_ceiling(count as nat, total);
            &&& same_holdings(table, after, count)
            &&& forall|p: usize|
                !hot.contains(p) ==> load_at(table, p) <= #[trigger] load_at(after, p)
            &&& forall|p: usize|
                !under.contains(p) ==> #[trigger] load_at(after, p) <= load_at(table, p)
            &&& double::is_counted(total) ==> forall|p: usize|
                #[trigger] load_at(after, p) <= load_at(table, p) || load_at(after, p) <= top
            &&& double::is_counted(total) ==> moved <= loads::sum_over(
                partition_map::loads_of(table, count as nat),
                hot.take(sources as int),
            ) + sources
        }),
    decreases sources,
{
    let top = excess::average_ceiling(count as nat, total);
    let loads = partition_map::loads_of(table, count as nat);
    if sources > 0 {
        let (before, moved) = passed(table, count, total, hot, under, (sources - 1) as nat);
        let src = hot[sources - 1];
        let quota = excess::excess(load_at(before, src), count as nat, total);
        let (after, more) = drained(before, count, total, src, under, quota, under.len());
        lemma_passed(table, count, total, hot, under, (sources - 1) as nat);
        assert forall|visit: nat| visit < under.len() implies #[trigger] visit_opens(
            before,
            count,
            total,
            src,
            under,
            quota,
            visit,
        ) by {
            assert(turn_opens(table, count, total, hot, under, (sources - 1) as nat, visit));
        }
        lemma_drained(before, count, total, src, under, quota, under.len());
        assert(hot.contains(src));
        assert forall|p: usize| !under.contains(p) implies #[trigger] load_at(after, p) <= load_at(
            table,
            p,
        ) by {
            if p == src {
            } else {
                assert(load_at(after, p) == load_at(before, p));
            }
            assert(load_at(before, p) <= load_at(table, p));
        }
        assert(hot.take(sources as int).drop_last() =~= hot.take(sources - 1));
        assert(loads[src as int] == load_at(table, src));
        if double::is_counted(total) {
            assert(load_at(before, src) <= load_at(table, src) || load_at(before, src) <= top);
            if load_at(before, src) <= top {
                lemma_excess_at_top(load_at(before, src), count as nat, total);
            }
        }
    }
}

/// A load up to the rounded-up average is above the average by less than one.
proof fn lemma_excess_at_top(load: nat, partitions: nat, total: nat)
    requires
        0 < partitions <= usize::MAX,
        double::is_counted(total),
        load <= excess::average_ceiling(partitions, total),
    ensures
        excess::excess(load, partitions, total) <= 1,
{
    let top = excess::average_ceiling(partitions, total);
    let up = excess::exact_excess(load, partitions, total);
    double::lemma_ceiling(total, partitions);
    excess::lemma_excess(load, partitions, total);
    if load * partitions > total {
        double::lemma_ceiling((load * partitions - total) as nat, partitions);
        assert(up <= 1) by (nonlinear_arith)
            requires
                up * partitions < load * partitions - total + partitions,
                top * partitions < total + partitions,
                load <= top,
                partitions > 0,
        ;
    }
}

/// Where its sources and those that they visit are apart, a pass takes from each source its
/// excess at most, and nothing before its turn.
proof fn lemma_passed_losses<K>(
    table: Map<usize, Seq<K>>,
    count: usize,
    total: nat,
    hot: Seq<usize>,
    under: Seq<usize>,
    sources: nat,
)
    requires
        table.dom().finite(),
        sources <= hot.len(),
        hot.no_duplicates(),
        are_apart(hot, under),
        forall|i: int| 0 <= i < hot.len() ==> #[trigger] hot[i] < count,
        pass_opens(table, count, total, hot, under, sources),
    ensures
        ({
            let after = passed(table, count, total, hot, under, sources).0;
            &&& forall|i: int|
                0 <= i < sources ==> load_at(table, #[trigger] hot[i]) - load_at(after, hot[i])
                    <= excess::excess(load_at(table, hot[i]), count as nat, total)
            &&& forall|i: int|
                sources <= i < hot.len() ==> load_at(after, #[trigger] hot[i]) == load_at(
                    table,
                    hot[i],
                )
        }),
    decreases sources,
{
    if sources > 0 {
        let earlier = (sources - 1) as nat;
        let before = passed(table, count, total, hot, under, earlier).0;
        let src = hot[sources - 1];
        let quota = excess::excess(load_at(before, src), count as nat, total);
        let after = drained(before, count, total, src, under, quota, under.len()).0;
        lemma_passed_losses(table, count, total, hot, under, earlier);
        lemma_passed(table, count, total, hot, under, earlier);
        assert forall|visit: nat| visit < under.len() implies #[trigger] visit_opens(
            before,
            count,
            total,
            src,
            under,
            quota,
            visit,
        ) by {
            assert(turn_opens(table, count, total, hot, under, earlier, visit));
        }
        lemma_drained(before, count, total, src, under, quota, under.len());
        assert forall|i: int| 0 <= i < hot.len() && i != sources - 1 implies load_at(
            after,
            #[trigger] hot[i],
        ) == load_at(before, hot[i]) by {
            assert(hot.contains(hot[i]));
            assert(hot[i] != src);
        }
    }
}

/// Further visits never lower the number of keys that moved.
proof fn lemma_drained_grows<K>(
    table: Map<usize, Seq<K>>,
    count: usize,
    total: nat,
    src: usize,
    under: Seq<usize>,
    quota: nat,
    fewer: nat,
    more: nat,
)
    requires
        fewer <= more,
    ensures
        drained(table, count, total, src, under, quota, fewer).1 <= drained(
            table,
            count,
            total,
            src,
            under,
            quota,
            more,
        ).1,
    decreases more,
{
    if fewer < more {
        lemma_drained_grows(table, count, total, src, under, quota, fewer, (more - 1) as nat);
    }
}

/// Once the quota is spent, further visits change nothing.
proof fn lemma_drained_spent<K>(
    table: Map<usize, Seq<K>>,
    count: usize,
    total: nat,
    src: usize,
    under: Seq<usize>,
    quota: nat,
    fewer: nat,
    more: nat,
)
    requires
        fewer <= more,
        drained(table, count, total, src, under, quota, fewer).1 >= quota,
    ensures
        drained(table, count, total, src, under, quota, more) == drained(
            table,
            count,
            total,
            src,
            under,
            quota,
            fewer,
        ),
    decreases more,
{
    if fewer < more {
        lemma_drained_spent(table, count, total, src, under, quota, fewer, (more - 1) as nat);
    }
}

/// Further sources never lower the number of keys that moved.
proof fn lemma_passed_grows<K>(
    table: Map<usize, Seq<K>>,
    count: usize,
    total: nat,
    hot: Seq<usize>,
    under: Seq<usize>,
    fewer: nat,
    more: nat,
)
    requires
        fewer <= more,
    ensures
        passed(table, count, total, hot, under, fewer).1 <= passed(
            table,
            count,
            total,
            hot,
            under,
            more,
        ).1,
    decreases more,
{
    if fewer < more {
        lemma_passed_grows(table, count, total, hot, under, fewer, (more - 1) as nat);
    }
}

/// Hotspots and underloaded partitions are the partitions that their names say.
proof fn lemma_selected(loads: Seq<nat>, threshold: Threshold)
    requires
        loads.len() <= usize::MAX,
    ensures
        ({
            let hot = loads::hotspots(loads, threshold);
            let under = loads::underloaded(loads, threshold);
            &&& hot.len() <= loads.len()
            &&& hot.no_duplicates()
            &&& under.no_duplicates()
            &&& loads::sum_over(loads, hot) <= loads::sum(loads)
            &&& forall|i: int| 0 <= i < hot.len() ==> #[trigger] hot[i] < loads.len()
            &&& forall|i: int| 0 <= i < under.len() ==> #[trigger] under[i] < loads.len()
        }),
{
    loads::lemma_picked(loads, loads.len(), |p: usize| loads::is_hot(loads, threshold, p));
    loads::lemma_picked(loads, loads.len(), |p: usize| loads::is_underloaded(loads, threshold, p));
    assert(loads.take(loads.len() as int) =~= loads);
}

/// Visits never take entries away.
proof fn lemma_drained_entries<K>(
    table: Map<usize, Seq<K>>,
    count: usize,
    total: nat,
    src: usize,
    under: Seq<usize>,
    quota: nat,
    visits: nat,
)
    ensures
        table.dom().subset_of(drained(table, count, total, src, under, quota, visits).0.dom()),
    decreases visits,
{
    if visits > 0 {
        lemma_drained_entries(table, count, total, src, under, quota, (visits - 1) as nat);
    }
}

/// Turns never take entries away.
proof fn lemma_passed_entries<K>(
    table: Map<usize, Seq<K>>,
    count: usize,
    total: nat,
    hot: Seq<usize>,
    under: Seq<usize>,
    sources: nat,
)
    ensures
        table.dom().subset_of(passed(table, count, total, hot, under, sources).0.dom()),
    decreases sources,
{
    if sources > 0 {
        let before = passed(table, count, total, hot, under, (sources - 1) as nat).0;
        let src = hot[sources - 1];
        let quota = excess::excess(load_at(before, src), count as nat, total);
        lemma_passed_entries(table, count, total, hot, under, (sources - 1) as nat);
        lemma_drained_entries(before, count, total, src, under, quota, under.len());
    }
}

/// Where every partition has an entry, a pass finds all those that it goes to.
proof fn lemma_opens<K>(table: Map<usize, Seq<K>>, count: usize, threshold: Threshold)
    requires
        can_rebalance(table, count, threshold),
    ensures
        ({
            let loads = partition_map::loads_of(table, count as nat);
            let hot = loads::hotspots(loads, threshold);
            let under = loads::underloaded(loads, Threshold::one());
            pass_opens(table, count, partition_map::total_len(table), hot, under, hot.len())
        }),
{
    let loads = partition_map::loads_of(table, count as nat);
    let total = partition_map::total_len(table);
    let hot = loads::hotspots(loads, threshold);
    let under = loads::underloaded(loads, Threshold::one());
    lemma_selected(loads, Threshold::one());
    if partition_map::complete(table, count) {
        assert forall|source: nat, visit: nat|
            source < hot.len() && visit < under.len() implies #[trigger] turn_opens(
            table,
            count,
            total,
            hot,
            under,
            source,
            visit,
        ) by {
            let before = passed(table, count, total, hot, under, source).0;
            let src = hot[source as int];
            let quota = excess::excess(load_at(before, src), count as nat, total);
            let dst = under[visit as int];
            lemma_passed_entries(table, count, total, hot, under, source);
            lemma_drained_entries(before, count, total, src, under, quota, visit);
            assert(table.contains_key(dst));
            assert(drained(before, count, total, src, under, quota, visit).0.dom().contains(dst));
        }
    }
}

/// A pass moves no more keys than there are and one for each partition, as long as doubles
/// count the keys, and at a threshold of one or more no more than there are.
pub proof fn lemma_effort<K>(table: Map<usize, Seq<K>>, count: usize, threshold: Threshold)
    requires
        table.dom().finite(),
        can_rebalance(table, count, threshold),
    ensures
        double::is_counted(partition_map::total_len(table)) ==> rebalanced(table, count, threshold).1
            <= partition_map::total_len(table) + count,
        threshold.at_least(1, 1) ==> rebalanced(table, count, threshold).1
            <= partition_map::total_len(table),
{
    let loads = partition_map::loads_of(table, count as nat);
    let total = partition_map::total_len(table);
    let hot = loads::hotspots(loads, threshold);
    let under = loads::underloaded(loads, Threshold::one());
    lemma_selected(loads, threshold);
    lemma_selected(loads, Threshold::one());
    partition_map::lemma_loads_total(table, count as nat);
    lemma_opens(table, count, threshold);
    lemma_passed(table, count, total, hot, under, hot.len());
    assert(hot.take(hot.len() as int) =~= hot);
    if threshold.at_least(1, 1) {
        lemma_apart(loads, threshold);
        lemma_passed_contents(table, count, total, hot, under, hot.len());
    }
}

/// The first of three is a prefix of the last where each is of the next.
proof fn lemma_prefixes<K>(first: Seq<K>, second: Seq<K>, third: Seq<K>)
    requires
        first.is_prefix_of(second),
        second.is_prefix_of(third),
    ensures
        first.is_prefix_of(third),
{
    assert(first =~= third.subrange(0, first.len() as int)) by {
        assert forall|i: int| 0 <= i < first.len() implies first[i] == third[i] by {
            assert(first[i] == second.subrange(0, first.len() as int)[i]);
            assert(second[i] == third.subrange(0, second.len() as int)[i]);
        }
    }
}

/// What a row of visits does to the keys: its source, which it does not visit, keeps its first
/// keys, the visited get more behind theirs, and all others keep what they have.
proof fn lemma_drained_contents<K>(
    table: Map<usize, Seq<K>>,
    count: usize,
    total: nat,
    src: usize,
    hot: Seq<usize>,
    under: Seq<usize>,
    quota: nat,
    visits: nat,
)
    requires
        table.dom().finite(),
        visits <= under.len(),
        src < count,
        hot.contains(src),
        hot.no_duplicates(),
        under.no_duplicates(),
        are_apart(hot, under),
        forall|i: int| 0 <= i < hot.len() ==> #[trigger] hot[i] < count,
        forall|i: int| 0 <= i < under.len() ==> #[trigger] under[i] < count,
        forall|visit: nat|
            visit < visits ==> #[trigger] visit_opens(
                table,
                count,
                total,
                src,
                under,
                quota,
                visit,
            ),
    ensures
        ({
            let (after, moved) = drained(table, count, total, src, under, quota, visits);
            let old_loads = partition_map::loads_of(table, count as nat);
            let new_loads = partition_map::loads_of(after, count as nat);
            &&& partition_map::keys_at(after, src).is_prefix_of(partition_map::keys_at(table, src))
            &&& forall|p: usize|
                p != src && under.contains(p) ==> partition_map::keys_at(
                    table,
                    p,
                ).is_prefix_of(#[trigger] partition_map::keys_at(after, p))
            &&& forall|p: usize|
                p != src && !under.contains(p) ==> #[trigger] partition_map::keys_at(after, p)
                    == partition_map::keys_at(table, p)
            &&& loads::sum_over(new_loads, hot) + moved == loads::sum_over(old_loads, hot)
            &&& loads::sum_over(old_loads, under) + moved == loads::sum_over(new_loads, under)
        }),
    decreases visits,
{
    if visits > 0 {
        let earlier = (visits - 1) as nat;
        let (before, gone) = drained(table, count, total, src, under, quota, earlier);
        let dst = under[visits - 1];
        let rest = left(quota, gone);
        let (after, more) = visited(before, count, total, src, dst, rest);
        lemma_drained_contents(table, count, total, src, hot, under, quota, earlier);
        lemma_drained(table, count, total, src, under, quota, earlier);
        assert(visit_opens(table, count, total, src, under, quota, earlier));
        lemma_visited(before, count, total, src, dst, rest);
        assert(under.contains(dst));
        assert(src != dst);
        let middle_loads = partition_map::loads_of(before, count as nat);
        let new_loads = partition_map::loads_of(after, count as nat);
        let given = middle_loads.update(src as int, new_loads[src as int]);
        assert forall|p: usize| p < count implies #[trigger] new_loads[p as int] == load_at(after, p)
            && middle_loads[p as int] == load_at(before, p) by {}
        assert(new_loads =~= given.update(dst as int, new_loads[dst as int])) by {
            assert forall|i: int| 0 <= i < count && i != src && i != dst implies new_loads[i]
                == middle_loads[i] by {
                assert(new_loads[i as usize as int] == load_at(after, i as usize));
            }
        }
        loads::lemma_sum_over_update(middle_loads, hot, src, new_loads[src as int]);
        loads::lemma_sum_over_update(given, hot, dst, new_loads[dst as int]);
        loads::lemma_sum_over_update(middle_loads, under, src, new_loads[src as int]);
        loads::lemma_sum_over_update(given, under, dst, new_loads[dst as int]);
        assert(!hot.contains(dst));
        let src_before = partition_map::keys_at(before, src);
        let src_after = partition_map::keys_at(after, src);
        let dst_before = partition_map::keys_at(before, dst);
        let dst_after = partition_map::keys_at(after, dst);
        if more > 0 {
            assert(src_after =~= src_before.take(src_before.len() - more));
            assert(dst_after =~= dst_before + src_before.skip(src_before.len() - more));
        }
        assert(src_after =~= src_before.subrange(0, src_after.len() as int));
        assert(dst_before =~= dst_after.subrange(0, dst_before.len() as int));
        lemma_prefixes(src_after, src_before, partition_map::keys_at(table, src));
        lemma_prefixes(partition_map::keys_at(table, dst), dst_before, dst_after);
        assert forall|p: usize| p != src && p != dst implies #[trigger] partition_map::keys_at(
            after,
            p,
        ) == partition_map::keys_at(before, p) by {}
    } else {
        assert forall|p: usize| #[trigger]
            partition_map::keys_at(table, p).is_prefix_of(partition_map::keys_at(table, p)) by {
            let keys = partition_map::keys_at(table, p);
            assert(keys =~= keys.subrange(0, keys.len() as int));
        }
        assert(partition_map::keys_at(table, src).is_prefix_of(partition_map::keys_at(table, src)));
    }
}

/// What a pass does to the keys where its sources and those that they visit are apart.
proof fn lemma_passed_contents<K>(
    table: Map<usize, Seq<K>>,
    count: usize,
    total: nat,
    hot: Seq<usize>,
    under: Seq<usize>,
    sources: nat,
)
    requires
        table.dom().finite(),
        sources <= hot.len(),
        hot.no_duplicates(),
        under.no_duplicates(),
        are_apart(hot, under),
        forall|i: int| 0 <= i < hot.len() ==> #[trigger] hot[i] < count,
        forall|i: int| 0 <= i < under.len() ==> #[trigger] under[i] < count,
        pass_opens(table, count, total, hot, under, sources),
    ensures
        ({
            let (after, moved) = passed(table, count, total, hot, under, sources);
            let old_loads = partition_map::loads_of(table, count as nat);
            let new_loads = partition_map::loads_of(after, count as nat);
            &&& forall|p: usize|
                hot.contains(p) ==> (#[trigger] partition_map::keys_at(after, p)).is_prefix_of(
                    partition_map::keys_at(table, p),
                )
            &&& forall|p: usize|
                under.contains(p) ==> partition_map::keys_at(table, p).is_prefix_of(
                    #[trigger] partition_map::keys_at(after, p),
                )
            &&& forall|p: usize|
                !hot.contains(p) && !under.contains(p) ==> #[trigger] partition_map::keys_at(
                    after,
                    p,
                ) == partition_map::keys_at(table, p)
            &&& loads::sum_over(new_loads, hot) + moved == loads::sum_over(old_loads, hot)
            &&& loads::sum_over(old_loads, under) + moved == loads::sum_over(new_loads, under)
        }),
    decreases sources,
{
    if sources > 0 {
        let earlier = (sources - 1) as nat;
        let before = passed(table, count, total, hot, under, earlier).0;
        let src = hot[sources - 1];
        let quota = excess::excess(load_at(before, src), count as nat, total);
        let after = drained(before, count, total, src, under, quota, under.len()).0;
        lemma_passed_contents(table, count, total, hot, under, earlier);
        lemma_passed(table, count, total, hot, under, earlier);
        assert forall|visit: nat| visit < under.len() implies #[trigger] visit_opens(
            before,
            count,
            total,
            src,
            under,
            quota,
            visit,
        ) by {
            assert(turn_opens(table, count, total, hot, under, earlier, visit));
        }
        assert(hot.contains(src));
        lemma_drained_contents(before, count, total, src, hot, under, quota, under.len());
        assert forall|p: usize| hot.contains(p) implies (#[trigger] partition_map::keys_at(
            after,
            p,
        )).is_prefix_of(partition_map::keys_at(table, p)) by {
            if p == src {
                lemma_prefixes(
                    partition_map::keys_at(after, p),
                    partition_map::keys_at(before, p),
                    partition_map::keys_at(table, p),
                );
            } else {
                assert(!under.contains(p));
                assert(partition_map::keys_at(after, p) == partition_map::keys_at(before, p));
            }
        }
        assert forall|p: usize| under.contains(p) implies partition_map::keys_at(
            table,
            p,
        ).is_prefix_of(#[trigger] partition_map::keys_at(after, p)) by {
            lemma_prefixes(
                partition_map::keys_at(table, p),
                partition_map::keys_at(before, p),
                partition_map::keys_at(after, p),
            );
        }
    } else {
        assert forall|p: usize| (#[trigger] partition_map::keys_at(table, p)).is_prefix_of(
            partition_map::keys_at(table, p),
        ) by {
            let keys = partition_map::keys_at(table, p);
            assert(keys =~= keys.subrange(0, keys.len() as int));
        }
    }
}

/// A rebalancing pass moves keys only from hotspots and only to partitions below the
/// average, and keeps all keys. It fills none above the rounded-up average, as long as doubles
/// count the keys.
pub proof fn law_rebalance_direction<K>(
    table: Map<usize, Seq<K>>,
    count: usize,
    threshold: Threshold,
)
    requires
        table.dom().finite(),
        can_rebalance(table, count, threshold),
    ensures
        ({
            let loads = partition_map::loads_of(table, count as nat);
            let (after, moved) = rebalanced(table, count, threshold);
            &&& same_holdings(table, after, count)
            &&& forall|p: usize|
                !loads::hotspots(loads, threshold).contains(p) ==> load_at(table, p)
                    <= #[trigger] load_at(after, p)
            &&& forall|p: usize|
                !loads::underloaded(loads, Threshold::one()).contains(p) ==> #[trigger] load_at(
                    after,
                    p,
                ) <= load_at(table, p)
            &&& double::is_counted(partition_map::total_len(table)) ==> forall|p: usize|
                #[trigger] load_at(after, p) > load_at(table, p) ==> load_at(after, p)
                    <= excess::average_ceiling(count as nat, partition_map::total_len(table))
        }),
{
    let loads = partition_map::loads_of(table, count as nat);
    lemma_selected(loads, threshold);
    lemma_opens(table, count, threshold);
    lemma_passed(
        table,
        count,
        partition_map::total_len(table),
        loads::hotspots(loads, threshold),
        loads::underloaded(loads, Threshold::one()),
        loads::hotspots(loads, threshold).len(),
    );
}

/// Without a hotspot a rebalancing pass changes nothing.
pub proof fn law_rebalance_rests<K>(table: Map<usize, Seq<K>>, count: usize, threshold: Threshold)
    requires
        loads::hotspots(partition_map::loads_of(table, count as nat), threshold).len() == 0,
    ensures
        rebalanced(table, count, threshold) == (table, 0nat),
{
}

/// Where the threshold is at least one and there is a hotspot, a rebalancing pass moves
/// something.
pub proof fn law_rebalance_progress<K>(
    table: Map<usize, Seq<K>>,
    count: usize,
    threshold: Threshold,
)
    requires
        table.dom().finite(),
        forall|p: usize| p < count <==> #[trigger] table.contains_key(p),
        threshold.at_least(1, 1),
        loads::is_modest(partition_map::loads_of(table, count as nat)),
        loads::hotspots(partition_map::loads_of(table, count as nat), threshold).len() > 0,
    ensures
        rebalanced(table, count, threshold).1 > 0,
{
    let loads = partition_map::loads_of(table, count as nat);
    let total = partition_map::total_len(table);
    let hot = loads::hotspots(loads, threshold);
    let under = loads::underloaded(loads, Threshold::one());
    partition_map::lemma_loads_total(table, count as nat);
    loads::lemma_picked(loads, loads.len(), |p: usize| loads::is_hot(loads, threshold, p));
    let low_pred = |p: usize| loads::is_underloaded(loads, Threshold::one(), p);
    loads::lemma_picked(loads, loads.len(), low_pred);
    let src = hot[0];
    assert(loads::is_hot(loads, threshold, src));
    loads::lemma_hot_is_above(loads, threshold, src);
    loads::lemma_some_below(loads, src as int);
    let low = choose|p: int| 0 <= p < loads.len() && #[trigger] loads[p] * loads.len() < loads::sum(loads);
    loads::lemma_underloaded_is_below(loads, low as usize);
    assert(low_pred(low as usize));
    assert(under.contains(low as usize));
    let dst = under[0];
    assert(loads::is_underloaded(loads, Threshold::one(), dst));
    let quota = excess::excess(load_at(table, src), count as nat, total);
    let average = double::average(count as nat, total);
    loads::lemma_hot_exceeds(loads, threshold, src);
    loads::lemma_underloaded_lacks(loads, dst);
    excess::lemma_some(load_at(table, src), average);
    excess::lemma_some(load_at(table, dst), average);
    assert(load_at(table, src) > 0) by {
        double::lemma_converted_from_one(load_at(table, src));
    }
    balance::law_hot_is_not_underloaded(loads, threshold, src);
    assert(src != dst);
    assert(visited(table, count, total, src, dst, quota).1 > 0);
    assert(drained(table, count, total, src, under, quota, 0) == (table, 0nat));
    assert(left(quota, 0) == quota);
    assert(drained(table, count, total, src, under, quota, 1).1 > 0);
    lemma_drained_grows(table, count, total, src, under, quota, 1, under.len());
    assert(passed(table, count, total, hot, under, 0) == (table, 0nat));
    assert(passed(table, count, total, hot, under, 1).1 > 0);
    lemma_passed_grows(table, count, total, hot, under, 1, hot.len());
}

/// A row of visits brings its source down to the average, unless all that it visited are up
/// to it, but for the slack that rounding leaves.
proof fn lemma_drained_settles<K>(
    table: Map<usize, Seq<K>>,
    count: usize,
    total: nat,
    src: usize,
    under: Seq<usize>,
    quota: nat,
    visits: nat,
    slack: nat,
)
    requires
        table.dom().finite(),
        total == partition_map::total_len(table),
        excess::is_off_by(count as nat, total, slack),
        src < count,
        visits <= under.len(),
        !under.contains(src),
        forall|i: int| 0 <= i < under.len() ==> #[trigger] under[i] < count,
        quota == excess::excess(load_at(table, src), count as nat, total),
        forall|visit: nat|
            visit < visits ==> #[trigger] visit_opens(
                table,
                count,
                total,
                src,
                under,
                quota,
                visit,
            ),
    ensures
        ({
            let after = drained(table, count, total, src, under, quota, visits).0;
            ||| load_at(after, src) * count <= total + slack
            ||| forall|i: int|
                0 <= i < visits ==> load_at(after, #[trigger] under[i]) * count + slack >= total
        }),
    decreases visits,
{
    if visits > 0 {
        let earlier = (visits - 1) as nat;
        let (before, gone) = drained(table, count, total, src, under, quota, earlier);
        let dst = under[visits - 1];
        let rest = left(quota, gone);
        let (after, moved) = visited(before, count, total, src, dst, rest);
        lemma_drained_settles(table, count, total, src, under, quota, earlier, slack);
        lemma_drained(table, count, total, src, under, quota, earlier);
        assert(visit_opens(table, count, total, src, under, quota, earlier));
        lemma_visited(before, count, total, src, dst, rest);
        assert(under.contains(dst));
        let n = count as nat;
        let low = load_at(after, src);
        let high = load_at(before, src);
        assert(low * n <= high * n) by (nonlinear_arith)
            requires
                low <= high,
        ;
        let lacking = excess::shortfall(load_at(before, dst), n, total);
        if moved == lacking {
            let had = load_at(before, dst);
            partition_map::lemma_load_within(before, dst);
            assert(excess::excess(had, n, total) >= 0);
            assert((had + lacking) * n == had * n + lacking * n) by (nonlinear_arith);
            assert forall|i: int| 0 <= i < visits && low * count > total + slack implies load_at(
                after,
                #[trigger] under[i],
            ) * count + slack >= total by {
                if i < visits - 1 && under[i] != dst {
                    assert(under.contains(under[i]));
                    assert(load_at(after, under[i]) == load_at(before, under[i]));
                }
            }
        } else if moved == rest {
            let start = load_at(table, src);
            partition_map::lemma_load_within(table, src);
            assert(low * n <= total + slack) by (nonlinear_arith)
                requires
                    low + quota <= start,
                    start * n <= total + slack + quota * n,
            ;
        } else {
            assert(low == 0);
            assert(0 * n == 0) by (nonlinear_arith);
        }
    }
}

/// A pass settles each of its sources.
proof fn lemma_passed_settles<K>(
    table: Map<usize, Seq<K>>,
    count: usize,
    total: nat,
    hot: Seq<usize>,
    under: Seq<usize>,
    sources: nat,
    source: int,
    dst: usize,
    slack: nat,
)
    requires
        table.dom().finite(),
        total == partition_map::total_len(table),
        excess::is_off_by(count as nat, total, slack),
        0 <= source < sources <= hot.len(),
        under.contains(dst),
        forall|i: int| 0 <= i < hot.len() ==> #[trigger] hot[i] < count,
        are_apart(hot, under),
        forall|i: int| 0 <= i < under.len() ==> #[trigger] under[i] < count,
        pass_opens(table, count, total, hot, under, sources),
    ensures
        ({
            let after = passed(table, count, total, hot, under, sources).0;
            load_at(after, hot[source]) * count <= total + slack || load_at(after, dst) * count
                + slack >= total
        }),
    decreases sources,
{
    let earlier = (sources - 1) as nat;
    let before = passed(table, count, total, hot, under, earlier).0;
    let src = hot[sources - 1];
    let quota = excess::excess(load_at(before, src), count as nat, total);
    let after = drained(before, count, total, src, under, quota, under.len()).0;
    lemma_passed(table, count, total, hot, under, earlier);
    assert forall|visit: nat| visit < under.len() implies #[trigger] visit_opens(
        before,
        count,
        total,
        src,
        under,
        quota,
        visit,
    ) by {
        assert(turn_opens(table, count, total, hot, under, earlier, visit));
    }
    let place = choose|i: int| 0 <= i < under.len() && under[i] == dst;
    assert(hot.contains(src) && hot.contains(hot[source]));
    if source == sources - 1 {
        lemma_drained_settles(before, count, total, src, under, quota, under.len(), slack);
        assert(under[place] == dst);
    } else {
        lemma_passed_settles(table, count, total, hot, under, earlier, source, dst, slack);
        lemma_drained(before, count, total, src, under, quota, under.len());
        let n = count as nat;
        let (a, b) = (load_at(before, hot[source]), load_at(after, hot[source]));
        let (c, d) = (load_at(before, dst), load_at(after, dst));
        assert(b <= a);
        assert(c <= d);
        assert(b * n <= a * n) by (nonlinear_arith)
            requires
                b <= a,
        ;
        assert(c * n <= d * n) by (nonlinear_arith)
            requires
                c <= d,
        ;
    }
}

/// Hotspots at a threshold of one or more and underloaded partitions have nothing in common.
proof fn lemma_apart(loads: Seq<nat>, threshold: Threshold)
    requires
        loads.len() <= usize::MAX,
        threshold.at_least(1, 1),
    ensures
        ({
            let hot = loads::hotspots(loads, threshold);
            let under = loads::underloaded(loads, Threshold::one());
            are_apart(hot, under)
        }),
{
    let hot = loads::hotspots(loads, threshold);
    let under = loads::underloaded(loads, Threshold::one());
    let low = |p: usize| loads::is_underloaded(loads, Threshold::one(), p);
    loads::lemma_picked(loads, loads.len(), |p: usize| loads::is_hot(loads, threshold, p));
    loads::lemma_picked(loads, loads.len(), low);
    assert forall|p: usize| #[trigger] hot.contains(p) implies !under.contains(p) by {
        let i = choose|i: int| 0 <= i < hot.len() && hot[i] == p;
        assert(loads::is_hot(loads, threshold, hot[i]));
        balance::law_hot_is_not_underloaded(loads, threshold, p);
        assert(!low(p));
    }
}

/// At a threshold of one or more, a rebalancing pass hands out the excess of its hotspots as
/// far as it is lacking elsewhere: it leaves no hotspot above the average while a partition
/// that was underloaded is still below it. This holds where rounding to doubles loses nothing;
/// as long as doubles count the keys, it holds but for one key.
pub proof fn law_rebalance_settles<K>(
    table: Map<usize, Seq<K>>,
    count: usize,
    threshold: Threshold,
    src: usize,
    dst: usize,
)
    requires
        table.dom().finite(),
        can_rebalance(table, count, threshold),
        threshold.at_least(1, 1),
        loads::hotspots(partition_map::loads_of(table, count as nat), threshold).contains(src),
        loads::underloaded(
            partition_map::loads_of(table, count as nat),
            Threshold::one(),
        ).contains(dst),
    ensures
        ({
            let after = rebalanced(table, count, threshold).0;
            let total = partition_map::total_len(table);
            &&& excess::counts_exactly(count as nat, total) ==> load_at(after, src) * count <= total
                || load_at(after, dst) * count >= total
            &&& double::is_counted(total) ==> load_at(after, src) * count <= total + count
                || load_at(after, dst) * count + count >= total
        }),
{
    let loads = partition_map::loads_of(table, count as nat);
    let total = partition_map::total_len(table);
    let hot = loads::hotspots(loads, threshold);
    let under = loads::underloaded(loads, Threshold::one());
    lemma_selected(loads, threshold);
    lemma_selected(loads, Threshold::one());
    lemma_apart(loads, threshold);
    lemma_opens(table, count, threshold);
    let source = choose|i: int| 0 <= i < hot.len() && hot[i] == src;
    let n = count as nat;
    excess::lemma_off_by(n, total);
    if excess::counts_exactly(n, total) {
        lemma_passed_settles(table, count, total, hot, under, hot.len(), source, dst, 0);
    }
    if double::is_counted(total) {
        lemma_passed_settles(table, count, total, hot, under, hot.len(), source, dst, n);
    }
}

/// At a threshold of one or more, a hotspot gives away no more than its excess. As long as
/// doubles count the keys, rounding never makes that greater, so that a hotspot from the
/// average up does not fall below it, but for the fraction of a key. Where moreover all keys
/// are on partitions, every hotspot is above the average to begin with.
pub proof fn law_rebalance_gives_excess_only<K>(
    table: Map<usize, Seq<K>>,
    count: usize,
    threshold: Threshold,
    src: usize,
)
    requires
        table.dom().finite(),
        can_rebalance(table, count, threshold),
        threshold.at_least(1, 1),
        loads::hotspots(partition_map::loads_of(table, count as nat), threshold).contains(src),
    ensures
        ({
            let loads = partition_map::loads_of(table, count as nat);
            let after = rebalanced(table, count, threshold).0;
            let total = partition_map::total_len(table);
            &&& load_at(table, src) - load_at(after, src) <= excess::excess(
                load_at(table, src),
                count as nat,
                total,
            )
            &&& double::is_counted(total) ==> load_at(table, src) - load_at(after, src)
                <= excess::exact_excess(load_at(table, src), count as nat, total)
            &&& double::is_counted(total) && load_at(table, src) >= total / count as nat
                ==> load_at(after, src) >= total / count as nat
            &&& loads::is_modest(loads) && total == loads::sum(loads) ==> load_at(after, src)
                >= total / count as nat
        }),
{
    let n = count as nat;
    let loads = partition_map::loads_of(table, n);
    let total = partition_map::total_len(table);
    let hot = loads::hotspots(loads, threshold);
    let under = loads::underloaded(loads, Threshold::one());
    let after = rebalanced(table, count, threshold).0;
    let is_hot = |p: usize| loads::is_hot(loads, threshold, p);
    lemma_selected(loads, threshold);
    loads::lemma_picked(loads, loads.len(), is_hot);
    assert(is_hot(src));
    lemma_apart(loads, threshold);
    lemma_opens(table, count, threshold);
    lemma_passed_losses(table, count, total, hot, under, hot.len());
    let source = choose|i: int| 0 <= i < hot.len() && hot[i] == src;
    assert(hot[source] == src);
    let load = load_at(table, src);
    let kept = load_at(after, src);
    let up = excess::exact_excess(load, n, total);
    let average = total / n;
    if double::is_counted(total) {
        partition_map::lemma_load_within(table, src);
        excess::lemma_excess(load, n, total);
        vstd::arithmetic::div_mod::lemma_fundamental_div_mod(total as int, n as int);
        assert(n * average == average * n) by (nonlinear_arith);
        if load * n > total {
            double::lemma_ceiling((load * n - total) as nat, n);
            assert(kept >= average) by (nonlinear_arith)
                requires
                    load - kept <= up,
                    up * n < load * n - total + n,
                    average * n <= total,
                    n > 0,
            ;
        }
        if loads::is_modest(loads) && total == loads::sum(loads) {
            loads::lemma_hot_is_above(loads, threshold, src);
        }
    }
}

/// At a threshold of one or more, every hotspot keeps a prefix of its keys, every underloaded
/// partition keeps its keys and gets more behind them, and all other partitions keep what they
/// have. What the hotspots lose and what the underloaded partitions gain each add up to the
/// number of keys that moved.
pub proof fn law_rebalance_contents<K>(
    table: Map<usize, Seq<K>>,
    count: usize,
    threshold: Threshold,
)
    requires
        table.dom().finite(),
        can_rebalance(table, count, threshold),
        threshold.at_least(1, 1),
    ensures
        ({
            let old_loads = partition_map::loads_of(table, count as nat);
            let hot = loads::hotspots(old_loads, threshold);
            let under = loads::underloaded(old_loads, Threshold::one());
            let (after, moved) = rebalanced(table, count, threshold);
            let new_loads = partition_map::loads_of(after, count as nat);
            &&& forall|p: usize|
                hot.contains(p) ==> (#[trigger] partition_map::keys_at(after, p)).is_prefix_of(
                    partition_map::keys_at(table, p),
                )
            &&& forall|p: usize|
                under.contains(p) ==> partition_map::keys_at(table, p).is_prefix_of(
                    #[trigger] partition_map::keys_at(after, p),
                )
            &&& forall|p: usize|
                !hot.contains(p) && !under.contains(p) ==> #[trigger] partition_map::keys_at(
                    after,
                    p,
                ) == partition_map::keys_at(table, p)
            &&& moved == loads::sum_over(old_loads, hot) - loads::sum_over(new_loads, hot)
            &&& moved == loads::sum_over(new_loads, under) - loads::sum_over(old_loads, under)
        }),
{
    let loads = partition_map::loads_of(table, count as nat);
    lemma_selected(loads, threshold);
    lemma_selected(loads, Threshold::one());
    lemma_apart(loads, threshold);
    lemma_opens(table, count, threshold);
    lemma_passed_contents(
        table,
        count,
        partition_map::total_len(table),
        loads::hotspots(loads, threshold),
        loads::underloaded(loads, Threshold::one()),
        loads::hotspots(loads, threshold).len(),
    );
}

/// Multiples compare as the numbers do.
proof fn lemma_against(load: nat, count: nat, average: nat)
    requires
        count > 0,
    ensures
        load * count <= average * count <==> load <= average,
        load * count >= average * count <==> load >= average,
{
    assert(load * count <= average * count <==> load <= average) by (nonlinear_arith)
        requires
            count > 0,
    ;
    assert(load * count >= average * count <==> load >= average) by (nonlinear_arith)
        requires
            count > 0,
    ;
}

/// Where the average is whole and every partition above it is a hotspot at a threshold of one
/// or more, a rebalancing pass moves just the excess of the hotspots and leaves every
/// partition at the average. The map is then balanced.
pub proof fn law_rebalance_levels<K>(
    table: Map<usize, Seq<K>>,
    count: usize,
    threshold: Threshold,
)
    requires
        count > 0,
        table.dom().finite(),
        forall|p: usize| p < count <==> #[trigger] table.contains_key(p),
        threshold.at_least(1, 1),
        loads::is_modest(partition_map::loads_of(table, count as nat)),
        forall|p: usize|
            p < count && #[trigger] load_at(table, p) * count > partition_map::total_len(table)
                ==> loads::hotspots(
                partition_map::loads_of(table, count as nat),
                threshold,
            ).contains(p),
        partition_map::total_len(table) % count as nat == 0,
    ensures
        ({
            let loads = partition_map::loads_of(table, count as nat);
            let hot = loads::hotspots(loads, threshold);
            let (after, moved) = rebalanced(table, count, threshold);
            let average = partition_map::total_len(table) / count as nat;
            &&& moved == loads::sum_over(loads, hot) - hot.len() * average
            &&& forall|p: usize| p < count ==> #[trigger] load_at(after, p) == average
            &&& balance::signal(partition_map::loads_of(after, count as nat))
                == TernaryBalance::Balanced
        }),
{
    let n = count as nat;
    let loads = partition_map::loads_of(table, n);
    let total = partition_map::total_len(table);
    let average = total / n;
    let hot = loads::hotspots(loads, threshold);
    let under = loads::underloaded(loads, Threshold::one());
    let after = rebalanced(table, count, threshold).0;
    let levels = partition_map::loads_of(after, n);
    let is_low = |p: usize| loads::is_underloaded(loads, Threshold::one(), p);
    partition_map::lemma_loads_total(table, n);
    loads::lemma_picked(loads, loads.len(), is_low);
    lemma_selected(loads, threshold);
    lemma_apart(loads, threshold);
    vstd::arithmetic::div_mod::lemma_fundamental_div_mod(total as int, n as int);
    assert(n * average == average * n) by (nonlinear_arith);
    assert(can_rebalance(table, count, threshold));
    excess::law_counts_exactly(n, total);
    law_rebalance_direction(table, count, threshold);
    law_rebalance_contents(table, count, threshold);
    assert forall|p: int| 0 <= p < levels.len() implies #[trigger] levels[p] <= average by {
        let q = p as usize;
        assert(levels[p] == load_at(after, q));
        lemma_against(load_at(table, q), n, average);
        if load_at(after, q) > average {
            assert(hot.contains(q));
            lemma_against(load_at(after, q), n, average);
            assert forall|o: int| 0 <= o < levels.len() implies #[trigger] levels[o] * n
                >= total by {
                let other = o as usize;
                assert(levels[o] == load_at(after, other));
                lemma_against(load_at(after, other), n, average);
                if hot.contains(other) {
                    law_rebalance_gives_excess_only(table, count, threshold, other);
                } else if under.contains(other) {
                    law_rebalance_settles(table, count, threshold, q, other);
                } else {
                    assert(!is_low(other));
                    loads::lemma_underloaded_is_below(loads, other);
                    assert(partition_map::keys_at(after, other) == partition_map::keys_at(
                        table,
                        other,
                    ));
                }
            }
            loads::lemma_some_below(levels, p);
        }
    }
    loads::lemma_level(levels, average);
    assert forall|p: usize| p < count implies #[trigger] load_at(after, p) == average by {
        assert(levels[p as int] == load_at(after, p));
    }
    loads::lemma_sum_over_level(levels, hot, average);
    balance::law_equal_is_balanced(levels, average);
}

/// After a rebalancing pass at a threshold of one or more no partition is further from the
/// average than the furthest was before, and the signal is no worse, as long as doubles count
/// the keys.
pub proof fn law_rebalance_never_worsens<K>(
    table: Map<usize, Seq<K>>,
    count: usize,
    threshold: Threshold,
)
    requires
        table.dom().finite(),
        forall|p: usize| p < count <==> #[trigger] table.contains_key(p),
        threshold.at_least(1, 1),
        loads::is_modest(partition_map::loads_of(table, count as nat)),
    ensures
        ({
            let before = partition_map::loads_of(table, count as nat);
            let after = partition_map::loads_of(
                rebalanced(table, count, threshold).0,
                count as nat,
            );
            &&& forall|p: int|
                0 <= p < count ==> #[trigger] balance::is_no_further(before, after, p)
            &&& balance::rank(balance::signal(after)) >= balance::rank(balance::signal(before))
        }),
{
    let before = partition_map::loads_of(table, count as nat);
    let after = partition_map::loads_of(rebalanced(table, count, threshold).0, count as nat);
    assert(can_rebalance(table, count, threshold));
    law_rebalance_direction(table, count, threshold);
    assert forall|p: int| 0 <= p < count implies #[trigger] balance::is_no_further(
        before,
        after,
        p,
    ) by {
        let q = lemma_no_further(table, count, threshold, p as usize);
    }
    lemma_tighter(before, after, 1, 10);
    lemma_tighter(before, after, 3, 10);
}

/// Some partition was as far from the average as `partition` is after a pass.
proof fn lemma_no_further<K>(
    table: Map<usize, Seq<K>>,
    count: usize,
    threshold: Threshold,
    partition: usize,
) -> (furthest: int)
    requires
        partition < count,
        table.dom().finite(),
        forall|p: usize| p < count <==> #[trigger] table.contains_key(p),
        threshold.at_least(1, 1),
        loads::is_modest(partition_map::loads_of(table, count as nat)),
    ensures
        0 <= furthest < count,
        balance::deviation(
            partition_map::loads_of(rebalanced(table, count, threshold).0, count as nat),
            partition as int,
        ) <= balance::deviation(partition_map::loads_of(table, count as nat), furthest),
{
    let n = count as nat;
    let total = partition_map::total_len(table);
    let before = partition_map::loads_of(table, n);
    let after = partition_map::loads_of(rebalanced(table, count, threshold).0, n);
    let was = before[partition as int];
    let is = after[partition as int];
    let hot = loads::hotspots(before, threshold);
    assert(was == load_at(table, partition));
    assert(is == load_at(rebalanced(table, count, threshold).0, partition));
    assert(can_rebalance(table, count, threshold));
    partition_map::lemma_loads_total(table, n);
    law_rebalance_direction(table, count, threshold);
    let top = excess::average_ceiling(n, total);
    double::lemma_ceiling(total, n);
    if is > was {
        assert(was * n < total) by (nonlinear_arith)
            requires
                was + 1 <= top,
                top * n < total + n,
                n > 0,
        ;
        assert(was * n <= is * n) by (nonlinear_arith)
            requires
                was <= is,
        ;
        if is * n <= total {
            partition as int
        } else {
            loads::lemma_some_above(before, partition as int);
            let high = choose|p: int|
                0 <= p < before.len() && #[trigger] before[p] * before.len() > loads::sum(before);
            let most = before[high];
            assert(most * n >= is * n) by (nonlinear_arith)
                requires
                    most * n > total,
                    is <= top,
                    top * n < total + n,
                    n > 0,
            {
                assert(most >= top);
            }
            high
        }
    } else if is < was {
        assert(hot.contains(partition));
        law_rebalance_gives_excess_only(table, count, threshold, partition);
        let up = excess::exact_excess(was, n, total);
        assert(was * n > total);
        double::lemma_ceiling((was * n - total) as nat, n);
        assert(is * n <= was * n) by (nonlinear_arith)
            requires
                is <= was,
        ;
        if is * n >= total {
            partition as int
        } else {
            loads::lemma_some_below(before, partition as int);
            let low = choose|p: int|
                0 <= p < before.len() && #[trigger] before[p] * before.len() < loads::sum(before);
            let least = before[low];
            assert(least * n <= is * n) by (nonlinear_arith)
                requires
                    least * n < total,
                    was - is <= up,
                    up * n < was * n - total + n,
                    n > 0,
            {
                assert((was - is) * n <= up * n);
                assert((least - is) * n < n);
                assert(least <= is);
            }
            low
        }
    } else {
        partition as int
    }
}

/// Where no load is further from the average than the furthest was, bounds on how far they
/// deviate are kept.
proof fn lemma_tighter(before: Seq<nat>, after: Seq<nat>, numerator: nat, denominator: nat)
    requires
        before.len() == after.len(),
        loads::sum(before) == loads::sum(after),
        forall|p: int| 0 <= p < after.len() ==> #[trigger] balance::is_no_further(before, after, p),
    ensures
        balance::deviates_below(before, numerator, denominator) ==> balance::deviates_below(
            after,
            numerator,
            denominator,
        ),
{
    if balance::deviates_below(before, numerator, denominator) {
        assert forall|p: int| 0 <= p < after.len() implies denominator
            * #[trigger] balance::deviation(after, p) < numerator * loads::sum(after) by {
            assert(balance::is_no_further(before, after, p));
            let q = choose|q: int|
                0 <= q < before.len() && balance::deviation(after, p)
                    <= #[trigger] balance::deviation(before, q);
            let near = balance::deviation(after, p);
            let far = balance::deviation(before, q);
            assert(denominator * near <= denominator * far) by (nonlinear_arith)
                requires
                    near <= far,
            ;
        }
    }
}

/// A pass starts with the given table and nothing moved, takes the hotspots one by one, and
/// ends after the last.
pub proof fn law_rebalance_takes_every_turn<K>(
    table: Map<usize, Seq<K>>,
    count: usize,
    threshold: Threshold,
)
    ensures
        ({
            let loads = partition_map::loads_of(table, count as nat);
            let total = partition_map::total_len(table);
            let hot = loads::hotspots(loads, threshold);
            let under = loads::underloaded(
                loads,
                Threshold::Finite { negative: false, significand: 1, exponent: 1074 },
            );
            &&& passed(table, count, total, hot, under, 0) == (table, 0nat)
            &&& rebalanced(table, count, threshold) == passed(
                table,
                count,
                total,
                hot,
                under,
                hot.len(),
            )
        }),
{
}

/// What the turn of one hotspot does, whatever the threshold. It visits the underloaded
/// partitions in order, and `cut` tells how many keys it has left before each visit and after
/// the last. A visit hands over the last keys that are left, in their order, behind the keys
/// of the visited partition: as many as that lacks to the average, but no more than is left of
/// the excess, nor than there are. The hotspot keeps the keys before, all other partitions
/// keep what they have, and what went is counted.
pub proof fn law_rebalance_turn<K>(
    table: Map<usize, Seq<K>>,
    count: usize,
    threshold: Threshold,
    turn: nat,
) -> (cut: Seq<nat>)
    requires
        table.dom().finite(),
        can_rebalance(table, count, threshold),
        turn < loads::hotspots(partition_map::loads_of(table, count as nat), threshold).len(),
    ensures
        ({
            let n = count as nat;
            let total = partition_map::total_len(table);
            let hot = loads::hotspots(partition_map::loads_of(table, n), threshold);
            let under = loads::underloaded(
                partition_map::loads_of(table, n),
                Threshold::Finite { negative: false, significand: 1, exponent: 1074 },
            );
            let (before, moved) = passed(table, count, total, hot, under, turn);
            let (after, so_far) = passed(table, count, total, hot, under, turn + 1);
            let src = hot[turn as int];
            let keys = partition_map::keys_at(before, src);
            let quota = excess::excess(keys.len(), n, total);
            &&& cut.len() == under.len() + 1
            &&& cut[0] == keys.len()
            &&& partition_map::keys_at(after, src) == keys.take(cut[under.len() as int] as int)
            &&& so_far == moved + keys.len() - cut[under.len() as int]
            &&& forall|i: int|
                0 <= i < under.len() && #[trigger] under[i] == src ==> cut[i + 1] == cut[i]
            &&& forall|i: int|
                0 <= i < under.len() && #[trigger] under[i] != src ==> {
                    let lacking = excess::shortfall(
                        partition_map::keys_at(before, under[i]).len(),
                        n,
                        total,
                    );
                    let went = cut[i] - cut[i + 1];
                    let rest = quota - (keys.len() - cut[i]);
                    &&& 0 <= went <= lacking
                    &&& went <= rest
                    &&& went <= cut[i]
                    &&& went == lacking || went == rest || went == cut[i]
                    &&& partition_map::keys_at(after, under[i]) == partition_map::keys_at(
                        before,
                        under[i],
                    ) + keys.subrange(cut[i + 1] as int, cut[i] as int)
                }
            &&& forall|p: usize|
                p != src && !under.contains(p) ==> #[trigger] partition_map::keys_at(after, p)
                    == partition_map::keys_at(before, p)
        }),
{
    let n = count as nat;
    let loads = partition_map::loads_of(table, n);
    let total = partition_map::total_len(table);
    let hot = loads::hotspots(loads, threshold);
    let under = loads::underloaded(loads, Threshold::one());
    let before = passed(table, count, total, hot, under, turn).0;
    let src = hot[turn as int];
    let keys = partition_map::keys_at(before, src);
    let quota = excess::excess(keys.len(), n, total);
    lemma_selected(loads, threshold);
    lemma_selected(loads, Threshold::one());
    lemma_opens(table, count, threshold);
    lemma_passed(table, count, total, hot, under, turn);
    assert forall|visit: nat| visit < under.len() implies #[trigger] visit_opens(
        before,
        count,
        total,
        src,
        under,
        quota,
        visit,
    ) by {
        assert(turn_opens(table, count, total, hot, under, turn, visit));
    }
    lemma_drained_rest(before, count, total, src, under, quota, under.len());
    lemma_drained(before, count, total, src, under, quota, under.len());
    assert(under.take(under.len() as int) =~= under);
    let cut = Seq::new(
        under.len() + 1,
        |i: int| load_at(drained(before, count, total, src, under, quota, i as nat).0, src),
    );
    assert forall|i: int|
        #![trigger under[i]]
        0 <= i < under.len() implies cut_holds(
        before,
        count,
        total,
        src,
        under,
        quota,
        under.len(),
        i,
        cut[i],
        cut[i + 1],
    ) by {
        lemma_drained_cut(before, count, total, src, under, quota, under.len(), i);
    }
    cut
}

/// Visit number `i` of a row takes the source from `high` keys to `low`, and that is what the
/// visited partition has more after `visits` visits.
spec fn cut_holds<K>(
    table: Map<usize, Seq<K>>,
    count: usize,
    total: nat,
    src: usize,
    under: Seq<usize>,
    quota: nat,
    visits: nat,
    i: int,
    high: nat,
    low: nat,
) -> bool {
    let after = drained(table, count, total, src, under, quota, visits).0;
    let keys = partition_map::keys_at(table, src);
    let there = partition_map::keys_at(table, under[i]);
    let lacking = excess::shortfall(there.len(), count as nat, total);
    let rest = quota - (keys.len() - high);
    &&& low <= high <= keys.len()
    &&& under[i] == src ==> low == high
    &&& under[i] != src ==> {
        &&& high - low <= lacking
        &&& high - low <= rest
        &&& high - low == lacking || high - low == rest || low == 0
        &&& partition_map::keys_at(after, under[i]) == there + keys.subrange(low as int, high as int)
    }
}

/// What a row of visits leaves: the source has its first keys, and who was not visited has
/// what it had.
proof fn lemma_drained_rest<K>(
    table: Map<usize, Seq<K>>,
    count: usize,
    total: nat,
    src: usize,
    under: Seq<usize>,
    quota: nat,
    visits: nat,
)
    requires
        table.dom().finite(),
        src < count,
        visits <= under.len(),
        forall|i: int| 0 <= i < under.len() ==> #[trigger] under[i] < count,
        forall|visit: nat|
            visit < visits ==> #[trigger] visit_opens(
                table,
                count,
                total,
                src,
                under,
                quota,
                visit,
            ),
    ensures
        ({
            let after = drained(table, count, total, src, under, quota, visits).0;
            let keys = partition_map::keys_at(table, src);
            &&& load_at(after, src) <= keys.len()
            &&& partition_map::keys_at(after, src) == keys.take(load_at(after, src) as int)
            &&& forall|p: usize|
                p != src && !under.take(visits as int).contains(p)
                    ==> #[trigger] partition_map::keys_at(after, p) == partition_map::keys_at(
                    table,
                    p,
                )
        }),
    decreases visits,
{
    let keys = partition_map::keys_at(table, src);
    if visits == 0 {
        assert(keys.take(keys.len() as int) =~= keys);
    } else {
        let earlier = (visits - 1) as nat;
        let (before, gone) = drained(table, count, total, src, under, quota, earlier);
        let after = drained(table, count, total, src, under, quota, visits).0;
        let dst = under[visits - 1];
        lemma_drained_rest(table, count, total, src, under, quota, earlier);
        lemma_drained(table, count, total, src, under, quota, earlier);
        assert(visit_opens(table, count, total, src, under, quota, earlier));
        lemma_visit_cuts(before, count, total, src, dst, left(quota, gone));
        let low = load_at(after, src);
        let held = partition_map::keys_at(before, src);
        let some = under.take(visits as int);
        let fewer = under.take(earlier as int);
        assert(held.take(low as int) =~= keys.take(low as int));
        assert forall|p: usize| p != src && !some.contains(p) implies #[trigger] partition_map::keys_at(
            after,
            p,
        ) == partition_map::keys_at(table, p) by {
            assert(some[earlier as int] == dst);
            if fewer.contains(p) {
                let i = choose|i: int| 0 <= i < fewer.len() && fewer[i] == p;
                assert(some[i] == p);
            }
        }
    }
}

/// What a visit in a row hands over.
proof fn lemma_drained_cut<K>(
    table: Map<usize, Seq<K>>,
    count: usize,
    total: nat,
    src: usize,
    under: Seq<usize>,
    quota: nat,
    visits: nat,
    i: int,
)
    requires
        table.dom().finite(),
        src < count,
        0 <= i < visits <= under.len(),
        under.no_duplicates(),
        forall|j: int| 0 <= j < under.len() ==> #[trigger] under[j] < count,
        forall|visit: nat|
            visit < visits ==> #[trigger] visit_opens(
                table,
                count,
                total,
                src,
                under,
                quota,
                visit,
            ),
    ensures
        cut_holds(
            table,
            count,
            total,
            src,
            under,
            quota,
            visits,
            i,
            load_at(drained(table, count, total, src, under, quota, i as nat).0, src),
            load_at(drained(table, count, total, src, under, quota, (i + 1) as nat).0, src),
        ),
    decreases visits,
{
    let keys = partition_map::keys_at(table, src);
    let earlier = (visits - 1) as nat;
    let (before, gone) = drained(table, count, total, src, under, quota, earlier);
    let after = drained(table, count, total, src, under, quota, visits).0;
    let dst = under[visits - 1];
    lemma_drained_rest(table, count, total, src, under, quota, earlier);
    lemma_drained(table, count, total, src, under, quota, earlier);
    assert(visit_opens(table, count, total, src, under, quota, earlier));
    lemma_visit_cuts(before, count, total, src, dst, left(quota, gone));
    if i == earlier {
        let high = load_at(before, src);
        let low = load_at(after, src);
        let held = partition_map::keys_at(before, src);
        let fewer = under.take(earlier as int);
        assert(!fewer.contains(dst)) by {
            if fewer.contains(dst) {
                let j = choose|j: int| 0 <= j < fewer.len() && fewer[j] == dst;
                assert(under[j] == under[visits - 1]);
            }
        }
        assert(held.subrange(low as int, high as int) =~= keys.subrange(low as int, high as int));
        if dst != src {
            assert(partition_map::keys_at(before, dst) == partition_map::keys_at(table, dst));
        }
    } else {
        lemma_drained_cut(table, count, total, src, under, quota, earlier, i);
        assert(under[i] != under[visits - 1]);
        if under[i] != src {
            assert(partition_map::keys_at(after, under[i]) == partition_map::keys_at(
                before,
                under[i],
            ));
        }
    }
}

/// What one visit hands over.
proof fn lemma_visit_cuts<K>(
    table: Map<usize, Seq<K>>,
    count: usize,
    total: nat,
    src: usize,
    dst: usize,
    quota: nat,
)
    requires
        table.dom().finite(),
        src < count,
        dst < count,
        visited(table, count, total, src, dst, quota).1 > 0 ==> table.contains_key(dst),
    ensures
        ({
            let after = visited(table, count, total, src, dst, quota).0;
            let keys = partition_map::keys_at(table, src);
            let high = load_at(table, src);
            let low = load_at(after, src);
            let lacking = excess::shortfall(load_at(table, dst), count as nat, total);
            &&& low <= high
            &&& partition_map::keys_at(after, src) == keys.take(low as int)
            &&& src == dst ==> low == high
            &&& src != dst ==> {
                &&& high - low <= lacking
                &&& high - low <= quota
                &&& high - low == lacking || high - low == quota || low == 0
                &&& partition_map::keys_at(after, dst) == partition_map::keys_at(table, dst)
                    + keys.subrange(low as int, high as int)
            }
            &&& forall|p: usize|
                p != src && p != dst ==> #[trigger] partition_map::keys_at(after, p)
                    == partition_map::keys_at(table, p)
        }),
{
    let (after, moved) = visited(table, count, total, src, dst, quota);
    let keys = partition_map::keys_at(table, src);
    let high = load_at(table, src);
    let low = load_at(after, src);
    lemma_visited(table, count, total, src, dst, quota);
    if moved > 0 {
        assert(partition_map::keys_at(after, src) =~= keys.take(low as int));
        assert(keys.skip(low as int) =~= keys.subrange(low as int, high as int));
        assert(partition_map::keys_at(after, dst) =~= partition_map::keys_at(table, dst)
            + keys.subrange(low as int, high as int));
    } else {
        let there = partition_map::keys_at(table, dst);
        assert(keys.take(high as int) =~= keys);
        assert(there + keys.subrange(low as int, high as int) =~= there);
    }
}

/// A pass can go on wherever every partition has an entry.
pub proof fn law_complete_can_rebalance<K>(
    table: Map<usize, Seq<K>>,
    count: usize,
    threshold: Threshold,
)
    requires
        forall|p: usize| p < count ==> #[trigger] table.contains_key(p),
    ensures
        can_rebalance(table, count, threshold),
{
}

/// The load of a partition is the number of its keys.
pub proof fn law_load_at<K>(table: Map<usize, Seq<K>>, partition: usize)
    ensures
        table.contains_key(partition) ==> load_at(table, partition) == table[partition].len(),
        !table.contains_key(partition) ==> load_at(table, partition) == 0,
{
}

/// Tables with the same holdings have the same entries, and the same keys over all of them.
pub proof fn law_same_holdings<K>(
    before: Map<usize, Seq<K>>,
    after: Map<usize, Seq<K>>,
    count: usize,
)
    requires
        same_holdings(before, after, count),
    ensures
        before.dom() == after.dom(),
        partition_map::all_keys(before) == partition_map::all_keys(after),
        partition_map::total_len(before) == partition_map::total_len(after),
{
}

} // verus!
