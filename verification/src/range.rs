//! Partitioning by ranges of keys.

use crate::partitioner::Partitioner;
use crate::sorting;
use std::cmp::Ordering;
use vstd::prelude::*;
use vstd::std_specs::cmp::{OrdSpec, PartialOrdSpec};

verus! {

/// Range-based partitioner using explicit boundary keys.
///
/// The boundaries part the keys into contiguous ranges. Each boundary belongs to the range
/// that it starts: boundaries 25, 50 and 75 make the ranges below 25, from 25 to below 50,
/// from 50 to below 75, and from 75 on.
#[derive(Debug, Clone)]
pub struct RangePartitioner<K> {
    /// Ascending boundary keys.
    boundaries: Vec<K>,
}

/// The comparison of keys is a total order, and known to be one.
pub open spec fn ordered<K: Ord>() -> bool {
    vstd::laws_cmp::obeys_cmp::<K>()
}

/// One key is at or below another.
pub open spec fn at_most<K: Ord>() -> spec_fn(K, K) -> bool {
    |a: K, b: K| a.cmp_spec(&b) != Ordering::Greater
}

/// Range number `target` holds `key`: the boundaries before it are at or below the key, and
/// those after it are above the key.
pub open spec fn in_range<K: Ord>(boundaries: Seq<K>, key: K, target: int) -> bool {
    &&& 0 <= target <= boundaries.len()
    &&& forall|i: int| 0 <= i < target ==> at_most()(#[trigger] boundaries[i], key)
    &&& forall|i: int| target <= i < boundaries.len() ==> !at_most()(#[trigger] boundaries[i], key)
}

impl<K> View for RangePartitioner<K> {
    type V = Seq<K>;

    closed spec fn view(&self) -> Seq<K> {
        self.boundaries@
    }
}

impl<K: Ord> RangePartitioner<K> {
    /// The boundaries are ascending, where keys are ordered at all.
    pub open spec fn well_formed(self) -> bool {
        ordered::<K>() ==> sorting::ascending(self@, at_most())
    }

    /// Creates a range partitioner from boundaries (will be sorted). Boundaries whose
    /// comparison is not a total order stay in some order.
    pub fn new(boundaries: Vec<K>) -> (partitioner: Self)
        ensures
            partitioner.well_formed(),
            ordered::<K>() ==> sorting::stably_sorted(boundaries@, partitioner@, at_most()),
            partitioner@.to_multiset() == boundaries@.to_multiset(),
            partitioner@.len() == boundaries@.len(),
    {
        proof {
            if ordered::<K>() {
                lemma_at_most::<K>();
            }
        }
        let compare = |a: &K, b: &K| -> (le: bool)
            ensures
                ordered::<K>() ==> le == at_most()(*a, *b),
            { is_at_most(a, b) };
        let sorted: Vec<K> = sorting::merge_sort(boundaries, compare, Ghost(at_most()));
        proof {
            boundaries@.to_multiset_ensures();
            sorted@.to_multiset_ensures();
        }
        RangePartitioner { boundaries: sorted }
    }

    /// Number of implied partitions: one more than there are boundaries.
    pub fn num_partitions(&self) -> (count: usize)
        requires
            self@.len() < usize::MAX,
        ensures
            count == self@.len() + 1,
    {
        self.boundaries.len() + 1
    }

    /// Determines the range that holds `key`. The boundaries define the number of
    /// partitions. Keys whose comparison is not a total order go to some range.
    pub fn partition(&self, key: &K, _num_partitions: usize) -> (target: usize)
        requires
            self.well_formed(),
        ensures
            target <= self@.len(),
            ordered::<K>() ==> in_range(self@, *key, target as int),
    {
        let mut low: usize = 0;
        let mut high: usize = self.boundaries.len();
        proof {
            if ordered::<K>() {
                lemma_at_most::<K>();
            }
        }
        while low < high
            invariant
                low <= high <= self@.len(),
                self.well_formed(),
                ordered::<K>() ==> {
                    &&& sorting::total_preorder(at_most::<K>())
                    &&& forall|i: int| 0 <= i < low ==> at_most()(#[trigger] self@[i], *key)
                    &&& forall|i: int|
                        high <= i < self@.len() ==> !at_most()(#[trigger] self@[i], *key)
                },
            decreases high - low,
        {
            let middle: usize = low + (high - low) / 2;
            let ghost pivot = self@[middle as int];
            if is_at_most(&self.boundaries[middle], key) {
                assert forall|i: int| ordered::<K>() && 0 <= i <= middle implies at_most()(
                    #[trigger] self@[i],
                    *key,
                ) by {
                    assert(i == middle || at_most()(self@[i], pivot));
                }
                low = middle + 1;
            } else {
                assert forall|i: int| ordered::<K>() && middle <= i < self@.len() implies !at_most()(
                    #[trigger] self@[i],
                    *key,
                ) by {
                    assert(i == middle || at_most()(pivot, self@[i]));
                }
                high = middle;
            }
        }
        low
    }
}

impl<K: Ord> Partitioner<K> for RangePartitioner<K> {
    open spec fn accepts(&self, key: &K, num_partitions: usize) -> bool {
        self.well_formed()
    }

    open spec fn assigns(&self, key: &K, num_partitions: usize, target: usize, after: &Self) -> bool {
        &&& target <= self@.len()
        &&& ordered::<K>() ==> in_range(self@, *key, target as int)
        &&& *after == *self
    }

    fn partition(&mut self, key: &K, num_partitions: usize) -> (target: usize) {
        RangePartitioner::partition(&*self, key, num_partitions)
    }
}

/// Compares two keys.
fn is_at_most<K: Ord>(a: &K, b: &K) -> (le: bool)
    ensures
        ordered::<K>() ==> le == at_most()(*a, *b),
{
    reveal(vstd::laws_cmp::obeys_cmp_ord);
    match a.cmp(b) {
        Ordering::Greater => false,
        _ => true,
    }
}

/// A total order of keys is a total preorder.
proof fn lemma_at_most<K: Ord>()
    requires
        ordered::<K>(),
    ensures
        sorting::total_preorder(at_most::<K>()),
{
    reveal(vstd::laws_cmp::obeys_cmp_ord);
    reveal(vstd::laws_cmp::obeys_cmp_partial_ord);
    reveal(vstd::laws_cmp::obeys_partial_cmp_spec_properties);
    reveal(vstd::laws_eq::obeys_eq_spec_properties);
    let le = at_most::<K>();
    assert forall|a: K, b: K| #[trigger] le(a, b) || le(b, a) by {
        assert(a.partial_cmp_spec(&b) == Some(a.cmp_spec(&b)));
        assert(b.partial_cmp_spec(&a) == Some(b.cmp_spec(&a)));
    }
    assert forall|a: K, b: K, c: K| #[trigger] le(a, b) && #[trigger] le(b, c) implies le(a, c) by {
        assert(a.partial_cmp_spec(&b) == Some(a.cmp_spec(&b)));
        assert(b.partial_cmp_spec(&c) == Some(b.cmp_spec(&c)));
        assert(a.partial_cmp_spec(&c) == Some(a.cmp_spec(&c)));
        assert(c.partial_cmp_spec(&a) == Some(c.cmp_spec(&a)));
    }
}

/// Every key is in one range only.
pub proof fn law_one_range<K: Ord>(boundaries: Seq<K>, key: K, one: int, other: int)
    requires
        in_range(boundaries, key, one),
        in_range(boundaries, key, other),
    ensures
        one == other,
{
    if one < other {
        assert(at_most()(boundaries[one], key));
    }
    if other < one {
        assert(at_most()(boundaries[other], key));
    }
}

/// The ranges follow the order of the keys, so that each range is contiguous: a key between
/// two keys of one range is in that range too.
pub proof fn law_contiguous<K: Ord>(
    boundaries: Seq<K>,
    low: K,
    middle: K,
    high: K,
    low_range: int,
    middle_range: int,
    high_range: int,
)
    requires
        ordered::<K>(),
        at_most()(low, middle),
        at_most()(middle, high),
        in_range(boundaries, low, low_range),
        in_range(boundaries, middle, middle_range),
        in_range(boundaries, high, high_range),
    ensures
        low_range <= middle_range <= high_range,
{
    lemma_at_most::<K>();
    if middle_range < low_range {
        assert(at_most()(boundaries[middle_range], low));
    }
    if high_range < middle_range {
        assert(at_most()(boundaries[high_range], middle));
    }
}

/// A boundary is in the range that it starts, after all ranges that it ends.
pub proof fn law_boundary_starts_range<K: Ord>(boundaries: Seq<K>, boundary: int, target: int)
    requires
        ordered::<K>(),
        0 <= boundary < boundaries.len(),
        in_range(boundaries, boundaries[boundary], target),
    ensures
        target > boundary,
{
    lemma_at_most::<K>();
    assert(at_most()(boundaries[boundary], boundaries[boundary]));
}

/// Keys are ordered wherever their comparison is known to be a total order.
pub proof fn law_ordered<K: Ord>()
    ensures
        ordered::<K>() <==> vstd::laws_cmp::obeys_cmp::<K>(),
{
}

/// The range of a key has as many boundaries before it as there are boundaries not above the
/// key: just these are before it, and all others are after it.
pub proof fn law_range_counts_boundaries<K: Ord>(boundaries: Seq<K>, key: K, target: int)
    requires
        in_range(boundaries, key, target),
    ensures
        forall|i: int|
            0 <= i < boundaries.len() ==> (i < target <==> #[trigger] boundaries[i].cmp_spec(&key)
                != Ordering::Greater),
        0 <= target <= boundaries.len(),
        target == boundaries.filter(|boundary: K| boundary.cmp_spec(&key) != Ordering::Greater).len(),
{
    let keep = |boundary: K| boundary.cmp_spec(&key) != Ordering::Greater;
    let head = boundaries.take(target);
    let tail = boundaries.skip(target);
    assert forall|i: int| 0 <= i < boundaries.len() implies (i < target
        <==> #[trigger] boundaries[i].cmp_spec(&key) != Ordering::Greater) by {
        if i < target {
            assert(at_most()(boundaries[i], key));
        } else {
            assert(!at_most()(boundaries[i], key));
        }
    }
    assert(boundaries =~= head + tail);
    Seq::filter_distributes_over_add(head, tail, keep);
    assert forall|i: int| 0 <= i < tail.len() implies !keep(#[trigger] tail[i]) by {
        assert(tail[i] == boundaries[i + target]);
    }
    tail.lemma_all_neg_filter_empty(keep);
    assert forall|i: int| 0 <= i < head.len() implies keep(#[trigger] head[i]) by {
        assert(head[i] == boundaries[i]);
    }
    lemma_kept_whole(head, keep);
}

/// A filter that keeps everything keeps the length.
proof fn lemma_kept_whole<K>(values: Seq<K>, keep: spec_fn(K) -> bool)
    requires
        forall|i: int| 0 <= i < values.len() ==> keep(#[trigger] values[i]),
    ensures
        values.filter(keep).len() == values.len(),
    decreases values.len(),
{
    if values.len() == 0 {
        reveal(Seq::filter);
    } else {
        let fewer = values.drop_last();
        lemma_kept_whole(fewer, keep);
        assert(values =~= fewer.push(values.last()));
        fewer.lemma_filter_push(values.last(), keep);
    }
}

/// Where keys are ordered, every key has a range among ascending boundaries.
pub proof fn law_some_range<K: Ord>(boundaries: Seq<K>, key: K) -> (target: int)
    requires
        ordered::<K>(),
        forall|i: int, j: int|
            0 <= i < j < boundaries.len() ==> #[trigger] boundaries[i].cmp_spec(
                #[trigger] &boundaries[j],
            ) != Ordering::Greater,
    ensures
        in_range(boundaries, key, target),
    decreases boundaries.len(),
{
    lemma_at_most::<K>();
    if boundaries.len() == 0 {
        0
    } else {
        let fewer = boundaries.drop_last();
        let last = boundaries.last();
        let below = law_some_range(fewer, key);
        if at_most()(last, key) {
            assert forall|i: int| 0 <= i < boundaries.len() implies at_most()(
                #[trigger] boundaries[i],
                key,
            ) by {
                let end = boundaries.len() - 1;
                if i < end {
                    assert(boundaries[i].cmp_spec(&boundaries[end]) != Ordering::Greater);
                    assert(at_most()(boundaries[i], last));
                }
            }
            boundaries.len() + 0int
        } else {
            assert forall|i: int| 0 <= i < below implies at_most()(#[trigger] boundaries[i], key) by {
                assert(at_most()(fewer[i], key));
            }
            assert forall|i: int| below <= i < boundaries.len() implies !at_most()(
                #[trigger] boundaries[i],
                key,
            ) by {
                if i < fewer.len() {
                    assert(!at_most()(fewer[i], key));
                }
            }
            below
        }
    }
}

/// The boundaries of a well-formed partitioner ascend where keys are ordered, and sorted
/// boundaries are the given ones in ascending order.
pub proof fn law_sorted_boundaries<K: Ord>(
    partitioner: RangePartitioner<K>,
    given: Seq<K>,
    sorted: Seq<K>,
)
    requires
        ordered::<K>(),
        partitioner.well_formed(),
        sorting::stably_sorted(given, sorted, at_most()),
    ensures
        forall|i: int, j: int|
            0 <= i < j < partitioner@.len() ==> #[trigger] partitioner@[i].cmp_spec(
                #[trigger] &partitioner@[j],
            ) != Ordering::Greater,
        forall|i: int, j: int|
            0 <= i < j < sorted.len() ==> #[trigger] sorted[i].cmp_spec(#[trigger] &sorted[j])
                != Ordering::Greater,
        sorted.to_multiset() == given.to_multiset(),
{
    lemma_at_most::<K>();
    sorting::law_stably_sorted(given, sorted, at_most());
    assert forall|i: int, j: int| 0 <= i < j < partitioner@.len() implies #[trigger] partitioner@[i].cmp_spec(
    #[trigger] &partitioner@[j]) != Ordering::Greater by {
        assert(at_most()(partitioner@[i], partitioner@[j]));
    }
    assert forall|i: int, j: int| 0 <= i < j < sorted.len() implies #[trigger] sorted[i].cmp_spec(
    #[trigger] &sorted[j]) != Ordering::Greater by {
        assert(at_most()(sorted[i], sorted[j]));
    }
}

/// The range strategy accepts every key. It assigns a key to its range, and stays as it is.
pub proof fn law_range_assigns<K: Ord>(
    strategy: RangePartitioner<K>,
    key: &K,
    num_partitions: usize,
    target: usize,
    after: &RangePartitioner<K>,
)
    requires
        strategy.well_formed(),
    ensures
        strategy.accepts(key, num_partitions),
        strategy.assigns(key, num_partitions, target, after) ==> target <= strategy@.len()
            && after@ == strategy@,
        strategy.assigns(key, num_partitions, target, after) && ordered::<K>() ==> forall|i: int|
            0 <= i < strategy@.len() ==> (i < target <==> #[trigger] strategy@[i].cmp_spec(key)
                != Ordering::Greater),
{
    if strategy.assigns(key, num_partitions, target, after) && ordered::<K>() {
        law_range_counts_boundaries(strategy@, *key, target + 0int);
    }
}

} // verus!
