//! Which keys live on which partition.

use crate::balance;
use crate::balance::TernaryBalance;
use crate::double;
use crate::double::Double;
use crate::loads;
use crate::threshold::Threshold;
use std::collections::HashMap;
use vstd::multiset::Multiset;
use vstd::prelude::*;

verus! {

broadcast use vstd::std_specs::hash::group_hash_axioms;

/// Tracks which keys live on which GPU partition.
#[derive(Debug, Clone)]
pub struct PartitionMap<K> {
    /// Number of partitions (GPUs).
    num_partitions: usize,
    /// The keys of each partition, in the order of their arrival.
    assignments: HashMap<usize, Vec<K>>,
}

/// The key sequences that a table of key vectors holds.
pub open spec fn entries<K>(assignments: Map<usize, Vec<K>>) -> Map<usize, Seq<K>> {
    assignments.map_values(|keys: Vec<K>| keys@)
}

/// The number of keys over all entries of a table.
pub open spec fn total_len<K>(table: Map<usize, Seq<K>>) -> nat
    decreases table.dom().len(),
{
    if table.dom().finite() && table.dom().len() > 0 {
        let partition = table.dom().choose();
        table[partition].len() + total_len(table.remove(partition))
    } else {
        0
    }
}

/// All keys of a table, with their multiplicity.
pub open spec fn all_keys<K>(table: Map<usize, Seq<K>>) -> Multiset<K>
    decreases table.dom().len(),
{
    if table.dom().finite() && table.dom().len() > 0 {
        let partition = table.dom().choose();
        table[partition].to_multiset().add(all_keys(table.remove(partition)))
    } else {
        Multiset::empty()
    }
}

/// A table has an entry for every partition below `count`.
pub open spec fn complete<K>(table: Map<usize, Seq<K>>, count: usize) -> bool {
    forall|p: usize| p < count ==> #[trigger] table.contains_key(p)
}

/// The keys that a table holds for `partition`: none where it has no entry.
pub open spec fn keys_at<K>(table: Map<usize, Seq<K>>, partition: usize) -> Seq<K> {
    if table.contains_key(partition) {
        table[partition]
    } else {
        Seq::empty()
    }
}

/// The loads of the partitions below `count`.
pub open spec fn loads_of<K>(table: Map<usize, Seq<K>>, count: nat) -> Seq<nat> {
    Seq::new(count, |i: int| keys_at(table, i as usize).len())
}

/// How many keys a move of `count` from `src` to `dst` takes: none where either is out of
/// range or both are the same, and no more than `src` holds.
pub open spec fn movable<K>(
    table: Map<usize, Seq<K>>,
    partitions: usize,
    src: usize,
    dst: usize,
    count: nat,
) -> nat {
    let load = keys_at(table, src).len();
    if src >= partitions || dst >= partitions || src == dst {
        0
    } else if count < load {
        count
    } else {
        load
    }
}

/// The table after the last `count` keys of `src` went, in their order, to the end of `dst`.
pub open spec fn after_move<K>(
    table: Map<usize, Seq<K>>,
    src: usize,
    dst: usize,
    count: nat,
) -> Map<usize, Seq<K>> {
    if count == 0 {
        table
    } else {
        let kept = table[src].len() - count;
        table.insert(src, table[src].take(kept)).insert(dst, table[dst] + table[src].skip(kept))
    }
}

/// Taking out any one entry takes its keys off the total.
pub proof fn lemma_total_len_remove<K>(table: Map<usize, Seq<K>>, partition: usize)
    requires
        table.dom().finite(),
        table.contains_key(partition),
    ensures
        total_len(table) == table[partition].len() + total_len(table.remove(partition)),
    decreases table.dom().len(),
{
    let chosen = table.dom().choose();
    if chosen != partition {
        let rest = table.remove(chosen);
        lemma_total_len_remove(rest, partition);
        lemma_total_len_remove(table.remove(partition), chosen);
        assert(rest.remove(partition) =~= table.remove(partition).remove(chosen));
    }
}

/// Taking out any one entry takes out its keys.
pub proof fn lemma_all_keys_remove<K>(table: Map<usize, Seq<K>>, partition: usize)
    requires
        table.dom().finite(),
        table.contains_key(partition),
    ensures
        all_keys(table) == table[partition].to_multiset().add(all_keys(table.remove(partition))),
    decreases table.dom().len(),
{
    let chosen = table.dom().choose();
    if chosen != partition {
        let rest = table.remove(chosen);
        lemma_all_keys_remove(rest, partition);
        lemma_all_keys_remove(table.remove(partition), chosen);
        assert(rest.remove(partition) =~= table.remove(partition).remove(chosen));
        assert(all_keys(table) =~= table[partition].to_multiset().add(
            all_keys(table.remove(partition)),
        ));
    }
}

/// Appending a key to an entry adds it to all keys.
pub proof fn lemma_all_keys_push<K>(table: Map<usize, Seq<K>>, partition: usize, key: K)
    requires
        table.dom().finite(),
    ensures
        all_keys(table.insert(partition, keys_at(table, partition).push(key))) == all_keys(
            table,
        ).insert(key),
{
    let keys = keys_at(table, partition);
    let after = table.insert(partition, keys.push(key));
    keys.to_multiset_ensures();
    lemma_all_keys_remove(after, partition);
    assert(after.remove(partition) =~= table.remove(partition));
    if table.contains_key(partition) {
        lemma_all_keys_remove(table, partition);
    } else {
        assert(table.remove(partition) =~= table);
    }
    assert(all_keys(after) =~= all_keys(table).insert(key));
}

/// Replacing an entry swaps its old keys for the new ones in the total.
pub proof fn lemma_total_len_insert<K>(table: Map<usize, Seq<K>>, partition: usize, keys: Seq<K>)
    requires
        table.dom().finite(),
    ensures
        total_len(table.insert(partition, keys)) + keys_at(table, partition).len() == total_len(
            table,
        ) + keys.len(),
{
    let after = table.insert(partition, keys);
    lemma_total_len_remove(after, partition);
    assert(after.remove(partition) =~= table.remove(partition));
    if table.contains_key(partition) {
        lemma_total_len_remove(table, partition);
    } else {
        assert(table.remove(partition) =~= table);
    }
}

/// No entry holds more keys than the whole table.
pub proof fn lemma_load_within<K>(table: Map<usize, Seq<K>>, partition: usize)
    requires
        table.dom().finite(),
    ensures
        keys_at(table, partition).len() <= total_len(table),
{
    if table.contains_key(partition) {
        lemma_total_len_remove(table, partition);
    }
}

/// A table without keys has total zero.
pub proof fn lemma_total_len_empty<K>(table: Map<usize, Seq<K>>)
    requires
        forall|p: usize| #[trigger] table.contains_key(p) ==> table[p].len() == 0,
    ensures
        total_len(table) == 0,
    decreases table.dom().len(),
{
    if table.dom().finite() && table.dom().len() > 0 {
        let chosen = table.dom().choose();
        assert(table.contains_key(chosen));
        lemma_total_len_empty(table.remove(chosen));
    }
}

/// Replacing the entry of a partition changes its load alone.
pub proof fn lemma_loads_insert<K>(
    table: Map<usize, Seq<K>>,
    count: usize,
    partition: usize,
    keys: Seq<K>,
)
    requires
        partition < count,
    ensures
        loads_of(table.insert(partition, keys), count as nat) == loads_of(
            table,
            count as nat,
        ).update(partition as int, keys.len()),
        loads::sum(loads_of(table.insert(partition, keys), count as nat)) + keys_at(
            table,
            partition,
        ).len() == loads::sum(loads_of(table, count as nat)) + keys.len(),
{
    let before = loads_of(table, count as nat);
    assert(loads_of(table.insert(partition, keys), count as nat) =~= before.update(
        partition as int,
        keys.len(),
    ));
    loads::lemma_sum_update(before, partition as int, keys.len());
}

/// The partitions hold at most as many keys as the whole table, and exactly as many where
/// the table has no other entries.
pub proof fn lemma_loads_total<K>(table: Map<usize, Seq<K>>, count: nat)
    requires
        table.dom().finite(),
        count <= usize::MAX,
    ensures
        loads::sum(loads_of(table, count)) <= total_len(table),
        (forall|p: usize| #[trigger] table.contains_key(p) ==> p < count) ==> loads::sum(
            loads_of(table, count),
        ) == total_len(table),
    decreases count,
{
    if count == 0 {
        if forall|p: usize| #[trigger] table.contains_key(p) ==> p < count {
            lemma_total_len_empty(table);
        }
    } else {
        let last = (count - 1) as usize;
        let rest = table.remove(last);
        let loads = loads_of(table, count);
        lemma_loads_total(rest, (count - 1) as nat);
        assert(loads.drop_last() =~= loads_of(rest, (count - 1) as nat));
        if table.contains_key(last) {
            lemma_total_len_remove(table, last);
        } else {
            assert(rest =~= table);
        }
    }
}

/// Moving keys between two entries of a table keeps its entries, its keys, its total and
/// the sum of the loads.
pub proof fn lemma_move_keeps<K>(
    table: Map<usize, Seq<K>>,
    partitions: usize,
    src: usize,
    dst: usize,
    count: nat,
)
    requires
        table.dom().finite(),
        count > 0 ==> src < partitions && dst < partitions && src != dst && table.contains_key(src)
            && table.contains_key(dst) && count <= table[src].len(),
    ensures
        ({
            let after = after_move(table, src, dst, count);
            &&& after.dom() == table.dom()
            &&& all_keys(after) == all_keys(table)
            &&& total_len(after) == total_len(table)
            &&& loads::sum(loads_of(after, partitions as nat)) == loads::sum(
                loads_of(table, partitions as nat),
            )
        }),
{
    if count > 0 {
        let kept = table[src].len() - count;
        let head = table[src].take(kept);
        let tail = table[src].skip(kept);
        let between = table.insert(src, head);
        let after = after_move(table, src, dst, count);
        assert(after.dom() =~= table.dom());
        lemma_total_len_insert(table, src, head);
        lemma_total_len_insert(between, dst, table[dst] + tail);
        lemma_loads_insert(table, partitions, src, head);
        lemma_loads_insert(between, partitions, dst, table[dst] + tail);
        let rest = table.remove(src).remove(dst);
        lemma_all_keys_remove(table, src);
        lemma_all_keys_remove(table.remove(src), dst);
        lemma_all_keys_remove(after, src);
        lemma_all_keys_remove(after.remove(src), dst);
        assert(after.remove(src).remove(dst) =~= rest);
        vstd::seq_lib::lemma_multiset_commutative(head, tail);
        vstd::seq_lib::lemma_multiset_commutative(table[dst], tail);
        assert(head + tail =~= table[src]);
        assert(all_keys(after) =~= all_keys(table));
    }
}

/// Moving keys and moving as many back restores the table.
pub proof fn law_move_back<K>(table: Map<usize, Seq<K>>, src: usize, dst: usize, count: nat)
    requires
        src != dst,
        table.contains_key(src),
        table.contains_key(dst),
        count <= table[src].len(),
    ensures
        after_move(after_move(table, src, dst, count), dst, src, count) == table,
{
    let between = after_move(table, src, dst, count);
    let kept = table[src].len() - count;
    if count > 0 {
        assert(between[dst].take(between[dst].len() - count) =~= table[dst]);
        assert(between[src] + between[dst].skip(between[dst].len() - count) =~= table[src]);
        assert(after_move(between, dst, src, count) =~= table);
    }
}

/// In a well-formed map the total is the sum of the sizes.
pub proof fn law_total_is_sum_of_sizes<K>(map: PartitionMap<K>)
    requires
        map.well_formed(),
    ensures
        total_len(map@) == loads::sum(map.loads()),
{
    map.lemma_finite();
    lemma_loads_total(map@, map.count() as nat);
}

impl<K> View for PartitionMap<K> {
    type V = Map<usize, Seq<K>>;

    closed spec fn view(&self) -> Map<usize, Seq<K>> {
        entries(self.assignments@)
    }
}

impl<K> PartitionMap<K> {
    /// The number of partitions.
    pub closed spec fn count(self) -> usize {
        self.num_partitions
    }

    /// The partitions have entries, and nothing else has. This holds of a new map, and
    /// every operation keeps it but writes through `assignments_mut`.
    pub open spec fn well_formed(self) -> bool {
        forall|p: usize| p < self.count() <==> #[trigger] self@.contains_key(p)
    }

    /// The loads of the partitions, in order.
    pub open spec fn loads(self) -> Seq<nat> {
        loads_of(self@, self.count() as nat)
    }

    /// A map has finitely many entries.
    pub proof fn lemma_finite(self)
        ensures
            self@.dom().finite(),
    {
        assert(self@.dom() =~= self.assignments@.dom());
    }
}

impl<K: Clone> PartitionMap<K> {
    /// Creates an empty map with `num_partitions` partitions.
    pub fn new(num_partitions: usize) -> (map: Self)
        ensures
            map.count() == num_partitions,
            map@ == Map::new(|p: usize| p < num_partitions, |p: usize| Seq::<K>::empty()),
            map.well_formed(),
            total_len(map@) == 0,
            loads::sum(map.loads()) == 0,
    {
        let mut assignments: HashMap<usize, Vec<K>> = HashMap::with_capacity(num_partitions);
        for i in 0..num_partitions
            invariant
                entries(assignments@) == Map::new(|p: usize| p < i, |p: usize| Seq::<K>::empty()),
        {
            let ghost before = assignments@;
            assignments.insert(i, Vec::new());
            assert(entries(assignments@) =~= entries(before).insert(i, Seq::<K>::empty()));
        }
        let map = PartitionMap { num_partitions, assignments };
        proof {
            lemma_total_len_empty(map@);
            map.lemma_finite();
            lemma_loads_total(map@, num_partitions as nat);
        }
        map
    }

    /// Number of partitions.
    pub fn num_partitions(&self) -> (count: usize)
        ensures
            count == self.count(),
    {
        self.num_partitions
    }

    /// Assigns `key` to `partition`. A partition out of range is ignored.
    pub fn assign(&mut self, partition: usize, key: K)
        ensures
            final(self).count() == old(self).count(),
            final(self)@ == if partition < old(self).count() {
                old(self)@.insert(partition, keys_at(old(self)@, partition).push(key))
            } else {
                old(self)@
            },
            old(self).well_formed() ==> final(self).well_formed(),
            partition < old(self).count() ==> {
                &&& all_keys(final(self)@) == all_keys(old(self)@).insert(key)
                &&& total_len(final(self)@) == total_len(old(self)@) + 1
                &&& loads::sum(final(self).loads()) == loads::sum(old(self).loads()) + 1
            },
    {
        if partition < self.num_partitions {
            let ghost before = self@;
            self.assignments.entry(partition).or_insert(Vec::new()).push(key);
            assert(self@ =~= before.insert(partition, keys_at(before, partition).push(key)));
            proof {
                old(self).lemma_finite();
                let keys = keys_at(before, partition).push(key);
                lemma_all_keys_push(before, partition, key);
                lemma_total_len_insert(before, partition, keys);
                lemma_loads_insert(before, self.num_partitions, partition, keys);
            }
        }
    }

    /// The keys of a partition.
    pub fn get(&self, partition: usize) -> (keys: &[K])
        ensures
            keys@ == keys_at(self@, partition),
    {
        match self.assignments.get(&partition) {
            Some(keys) => keys.as_slice(),
            None => &[],
        }
    }

    /// Number of keys in a partition.
    pub fn len(&self, partition: usize) -> (load: usize)
        ensures
            load == keys_at(self@, partition).len(),
    {
        match self.assignments.get(&partition) {
            Some(keys) => keys.len(),
            None => 0,
        }
    }

    /// Total number of keys over all entries.
    pub fn total(&self) -> (total: usize)
        requires
            total_len(self@) <= usize::MAX,
        ensures
            total == total_len(self@),
    {
        let mut total: usize = 0;
        let ghost mut rest = self@;
        assert(self@.dom() =~= self.assignments@.dom());
        for (partition, keys) in it: self.assignments.iter()
            invariant
                total + total_len(rest) == total_len(self@) <= usize::MAX,
                rest.dom().finite(),
                it.seq().no_duplicates(),
                forall|i: int|
                    #![trigger it.seq()[i]]
                    0 <= i < it.seq().len() ==> self.assignments@.contains_key(*it.seq()[i].0)
                        && self.assignments@[*it.seq()[i].0] == *it.seq()[i].1,
                forall|p: usize| #[trigger] rest.contains_key(p) ==> self@.contains_key(p),
                forall|p: usize| #[trigger] rest.contains_key(p) ==> rest[p] == self@[p],
                forall|i: int|
                    it.index() <= i < it.seq().len() ==> rest.contains_key(
                        *(#[trigger] it.seq()[i]).0,
                    ),
                rest.dom().len() + it.index() == it.seq().len(),
        {
            proof {
                lemma_total_len_remove(rest, *partition);
                rest = rest.remove(*partition);
            }
            total = total + keys.len();
        }
        total
    }

    /// The load of each partition, in order.
    pub fn sizes(&self) -> (sizes: Vec<usize>)
        ensures
            loads::counted(sizes@) == self.loads(),
            sizes@.len() == self.count(),
            forall|p: usize|
                p < self.count() ==> #[trigger] sizes@[p as int] == keys_at(self@, p).len(),
    {
        let mut sizes: Vec<usize> = Vec::new();
        for i in 0..self.num_partitions
            invariant
                loads::counted(sizes@) == self.loads().take(i as int),
                self.loads().len() == self.num_partitions,
        {
            let ghost before = loads::counted(sizes@);
            sizes.push(self.len(i));
            assert(loads::counted(sizes@) =~= before.push(self.loads()[i as int]));
            assert(self.loads().take(i + 1) =~= before.push(self.loads()[i as int]));
        }
        assert(self.loads().take(self.num_partitions as int) =~= self.loads());
        assert(loads::counted(sizes@).len() == self.num_partitions);
        assert forall|p: usize| p < self.count() implies #[trigger] sizes@[p as int] == keys_at(
            self@,
            p,
        ).len() by {
            assert(loads::counted(sizes@)[p as int] == self.loads()[p as int]);
        }
        sizes
    }

    /// Checks the balance across all partitions.
    ///
    /// - Balanced: max deviation < 10% of average
    /// - Skewed: max deviation < 30% of average
    /// - Hotspot: max deviation >= 30% of average
    pub fn check_balance(&self) -> (signal: TernaryBalance)
        requires
            loads::sum(self.loads()) <= usize::MAX,
        ensures
            signal == balance::signal(self.loads()),
    {
        let sizes: Vec<usize> = self.sizes();
        balance::signal_of(&sizes)
    }

    /// Detects hotspot partitions: those whose size exceeds `threshold` times the average.
    pub fn detect_hotspots(&self, threshold: Threshold) -> (hot: Vec<usize>)
        requires
            loads::sum(self.loads()) <= usize::MAX,
        ensures
            hot@ == loads::hotspots(self.loads(), threshold),
    {
        let sizes: Vec<usize> = self.sizes();
        let total: usize = loads::add_up(&sizes);
        let mut hot: Vec<usize> = Vec::new();
        if total == 0 {
            return hot;
        }
        let average: Double = Double::averaging(sizes.len(), total);
        let ghost loads = self.loads();
        let ghost pred = |p: usize| loads::is_hot(loads, threshold, p);
        let ghost all = loads::partitions(loads.len());
        for i in 0..sizes.len()
            invariant
                loads == loads::counted(sizes@),
                average.is_moderate(),
                average.units() == double::average(loads.len(), loads::sum(loads)),
                pred == (|p: usize| loads::is_hot(loads, threshold, p)),
                all == loads::partitions(loads.len()),
                hot@ == all.take(i as int).filter(pred),
        {
            proof {
                assert(all.take(i + 1) =~= all.take(i as int).push(i));
                all.take(i as int).lemma_filter_push(i, pred);
            }
            if threshold.is_exceeded(sizes[i], average) {
                hot.push(i);
            }
        }
        assert(all.take(sizes.len() as int) =~= all);
        hot
    }

    /// Finds underloaded partitions: those below `threshold` times the average.
    pub fn detect_underloaded(&self, threshold: Threshold) -> (under: Vec<usize>)
        requires
            loads::sum(self.loads()) <= usize::MAX,
        ensures
            under@ == loads::underloaded(self.loads(), threshold),
    {
        let sizes: Vec<usize> = self.sizes();
        let total: usize = loads::add_up(&sizes);
        let mut under: Vec<usize> = Vec::new();
        if total == 0 {
            return under;
        }
        let average: Double = Double::averaging(sizes.len(), total);
        let ghost loads = self.loads();
        let ghost pred = |p: usize| loads::is_underloaded(loads, threshold, p);
        let ghost all = loads::partitions(loads.len());
        for i in 0..sizes.len()
            invariant
                loads == loads::counted(sizes@),
                average.is_moderate(),
                average.units() == double::average(loads.len(), loads::sum(loads)),
                pred == (|p: usize| loads::is_underloaded(loads, threshold, p)),
                all == loads::partitions(loads.len()),
                under@ == all.take(i as int).filter(pred),
        {
            proof {
                assert(all.take(i + 1) =~= all.take(i as int).push(i));
                all.take(i as int).lemma_filter_push(i, pred);
            }
            if threshold.is_unmet(sizes[i], average) {
                under.push(i);
            }
        }
        assert(all.take(sizes.len() as int) =~= all);
        under
    }

    /// Moves the last `count` keys of `src`, or all where it has fewer, to the end of `dst`,
    /// and returns how many went. The keys keep their order.
    pub fn move_items(&mut self, src: usize, dst: usize, count: usize) -> (moved: usize)
        requires
            movable(old(self)@, old(self).count(), src, dst, count as nat) > 0
                ==> old(self)@.contains_key(dst),
        ensures
            final(self).count() == old(self).count(),
            moved == movable(old(self)@, old(self).count(), src, dst, count as nat),
            final(self)@ == after_move(old(self)@, src, dst, moved as nat),
            old(self).well_formed() ==> final(self).well_formed(),
            all_keys(final(self)@) == all_keys(old(self)@),
            total_len(final(self)@) == total_len(old(self)@),
            loads::sum(final(self).loads()) == loads::sum(old(self).loads()),
    {
        if src >= self.num_partitions || dst >= self.num_partitions || src == dst {
            return 0;
        }
        let load: usize = self.len(src);
        let moved: usize = if count < load {
            count
        } else {
            load
        };
        if moved == 0 {
            return 0;
        }
        let ghost before = self@;
        let mut drained: Vec<K> = self.assignments.entry(src).or_insert(Vec::new()).split_off(load - moved);
        self.assignments.entry(dst).or_insert(Vec::new()).append(&mut drained);
        proof {
            assert(self@ =~= after_move(before, src, dst, moved as nat));
            old(self).lemma_finite();
            lemma_move_keeps(before, self.num_partitions, src, dst, moved as nat);
            assert forall|p: usize| self@.contains_key(p) == before.contains_key(p) by {
                assert(self@.dom().contains(p) == before.dom().contains(p));
            }
        }
        moved
    }

    /// Grants write access to the whole table of keys.
    pub fn assignments_mut(&mut self) -> (table: &mut HashMap<usize, Vec<K>>)
        ensures
            entries(table@) == old(self)@,
            final(self)@ == entries(final(table)@),
            final(self).count() == old(self).count(),
    {
        &mut self.assignments
    }
}

/// A partition with an entry has the keys of that entry, and one without has none.
pub proof fn law_keys_at<K>(table: Map<usize, Seq<K>>, partition: usize)
    ensures
        table.contains_key(partition) ==> keys_at(table, partition) == table[partition],
        !table.contains_key(partition) ==> keys_at(table, partition).len() == 0,
{
}

/// The loads are the numbers of keys, partition by partition.
pub proof fn law_loads<K>(map: PartitionMap<K>)
    ensures
        map.loads().len() == map.count(),
        forall|p: usize|
            p < map.count() ==> #[trigger] map.loads()[p as int] == if map@.contains_key(p) {
                map@[p].len()
            } else {
                0
            },
{
}

/// An empty table holds no keys, and a new entry adds its keys.
pub proof fn law_total<K>(table: Map<usize, Seq<K>>, partition: usize, keys: Seq<K>)
    requires
        table.dom().finite(),
        !table.contains_key(partition),
    ensures
        total_len(Map::<usize, Seq<K>>::empty()) == 0,
        total_len(table.insert(partition, keys)) == total_len(table) + keys.len(),
        all_keys(Map::<usize, Seq<K>>::empty()) == Multiset::<K>::empty(),
        all_keys(table.insert(partition, keys)) == all_keys(table).add(keys.to_multiset()),
{
    let after = table.insert(partition, keys);
    lemma_total_len_insert(table, partition, keys);
    lemma_all_keys_remove(after, partition);
    assert(after.remove(partition) =~= table);
    assert(all_keys(after) =~= all_keys(table).add(keys.to_multiset()));
}

/// A move takes as many keys as asked for, or all where there are fewer, and none where
/// either partition is out of range or both are the same.
pub proof fn law_movable<K>(
    table: Map<usize, Seq<K>>,
    partitions: usize,
    src: usize,
    dst: usize,
    count: nat,
)
    ensures
        ({
            let moved = movable(table, partitions, src, dst, count);
            &&& src >= partitions || dst >= partitions || src == dst || !table.contains_key(src)
                ==> moved == 0
            &&& src < partitions && dst < partitions && src != dst && table.contains_key(src)
                ==> moved <= count && moved <= table[src].len() && (moved == count || moved
                == table[src].len())
        }),
{
}

/// The keys that move are the last ones of their partition. They go behind those of the other
/// partition, in their order, and nothing else changes.
pub proof fn law_moved_keys<K>(table: Map<usize, Seq<K>>, src: usize, dst: usize, count: nat)
    requires
        src != dst,
        table.contains_key(src),
        table.contains_key(dst),
        count <= table[src].len(),
    ensures
        ({
            let after = after_move(table, src, dst, count);
            &&& after.dom() == table.dom()
            &&& exists|taken: Seq<K>|
                {
                    &&& taken.len() == count
                    &&& table[src] == #[trigger] (after[src] + taken)
                    &&& after[dst] == table[dst] + taken
                }
            &&& forall|p: usize|
                p != src && p != dst && #[trigger] table.contains_key(p) ==> after[p] == table[p]
        }),
{
    let after = after_move(table, src, dst, count);
    let taken = table[src].skip(table[src].len() - count);
    assert(after.dom() =~= table.dom());
    assert(table[src] =~= after[src] + taken);
    assert(after[dst] =~= table[dst] + taken);
}

/// The entries of a table of key vectors are those of the table, key by key.
pub proof fn law_entries<K>(assignments: Map<usize, Vec<K>>)
    ensures
        entries(assignments).dom() == assignments.dom(),
        forall|p: usize| #[trigger]
            assignments.contains_key(p) ==> entries(assignments)[p] == assignments[p]@,
{
    assert(entries(assignments).dom() =~= assignments.dom());
}

/// A table is complete where every partition has an entry, and a map is well-formed where
/// besides nothing else has one.
pub proof fn law_complete<K>(map: PartitionMap<K>)
    ensures
        (forall|p: usize| p < map.count() ==> #[trigger] map@.contains_key(p)) ==> complete(
            map@,
            map.count(),
        ),
        (forall|p: usize| p < map.count() <==> #[trigger] map@.contains_key(p))
            <==> map.well_formed(),
{
}

/// The loads of a table are the numbers of keys of the partitions below a count, one by one.
pub proof fn law_loads_of<K>(table: Map<usize, Seq<K>>, count: usize)
    ensures
        loads_of(table, count as nat).len() == count,
        forall|p: usize|
            p < count ==> #[trigger] loads_of(table, count as nat)[p as int] == if table.contains_key(
                p,
            ) {
                table[p].len()
            } else {
                0
            },
{
}

} // verus!
