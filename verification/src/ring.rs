//! Consistent hashing.

use crate::digest;
use crate::label;
use crate::sorting;
use std::collections::hash_map::DefaultHasher;
use std::collections::HashSet;
use std::hash::Hash;
use vstd::prelude::*;
use vstd::std_specs::hash::DefaultHasherAdditionalSpecFns;

verus! {

broadcast use vstd::std_specs::hash::group_hash_axioms;

/// Consistent hashing ring for stable partitioning under node changes.
///
/// Each node (GPU) is placed on the ring at multiple virtual points.
/// A key is assigned to the first node clockwise from its hash position.
#[derive(Debug, Clone)]
pub struct ConsistentHashRing {
    /// Pairs of position and node, ascending by position.
    ring: Vec<(u64, usize)>,
    /// Number of virtual nodes per real node.
    vnodes: usize,
}

/// Ring entries are ordered by their position alone.
pub open spec fn by_position() -> spec_fn((u64, usize), (u64, usize)) -> bool {
    |a: (u64, usize), b: (u64, usize)| a.0 <= b.0
}

/// Where a virtual node stands on the ring.
pub open spec fn vnode_position(node: usize, vnode: usize) -> u64 {
    digest::text_digest(label::vnode_name(node, vnode))
}

/// The entries of one node, a virtual node after the other.
pub open spec fn entries_of(node: usize, vnodes: usize) -> Seq<(u64, usize)> {
    Seq::new(vnodes as nat, |vnode: int| (vnode_position(node, vnode as usize), node))
}

/// The entries of several nodes, a node after the other.
pub open spec fn entries_of_all(nodes: Seq<usize>, vnodes: usize) -> Seq<(u64, usize)>
    decreases nodes.len(),
{
    if nodes.len() == 0 {
        Seq::empty()
    } else {
        entries_of_all(nodes.drop_last(), vnodes) + entries_of(nodes.last(), vnodes)
    }
}

/// The nodes that have entries.
pub open spec fn nodes_on(ring: Seq<(u64, usize)>) -> Set<usize> {
    ring.map_values(|entry: (u64, usize)| entry.1).to_set()
}

/// An entry stands at one of the virtual points of its node.
pub open spec fn is_point(entry: (u64, usize), vnodes: usize) -> bool {
    exists|vnode: usize| vnode < vnodes && entry.0 == #[trigger] vnode_position(entry.1, vnode)
}

/// The entries are exactly the virtual points of the nodes on the ring: it has no others, and
/// every node that is on it has all its points there.
pub open spec fn has_all_points(ring: Seq<(u64, usize)>, vnodes: usize) -> bool {
    forall|entry: (u64, usize)| #[trigger]
        ring.contains(entry) <==> nodes_on(ring).contains(entry.1) && is_point(entry, vnodes)
}

/// Picks the entries of other nodes than `node`.
pub open spec fn not_of(node: usize) -> spec_fn((u64, usize)) -> bool {
    |entry: (u64, usize)| entry.1 != node
}

/// Picks the entries from `position` on.
pub open spec fn at_or_after(position: u64) -> spec_fn((u64, usize)) -> bool {
    |entry: (u64, usize)| entry.0 >= position
}

/// Picks the entries before `position`.
pub open spec fn before(position: u64) -> spec_fn((u64, usize)) -> bool {
    |entry: (u64, usize)| entry.0 < position
}

/// The entries without those of `node`.
pub open spec fn without(ring: Seq<(u64, usize)>, node: usize) -> Seq<(u64, usize)> {
    ring.filter(not_of(node))
}

/// The entries in clockwise order from `position` on: those from there to the end of the
/// ring, then those from its start.
pub open spec fn clockwise(ring: Seq<(u64, usize)>, position: u64) -> Seq<(u64, usize)> {
    ring.filter(at_or_after(position)) + ring.filter(before(position))
}

/// The node of the first entry clockwise from `position`; node zero where the ring is empty.
pub open spec fn owner(ring: Seq<(u64, usize)>, position: u64) -> usize {
    if ring.len() == 0 {
        0
    } else {
        clockwise(ring, position)[0].1
    }
}

impl View for ConsistentHashRing {
    type V = Seq<(u64, usize)>;

    closed spec fn view(&self) -> Seq<(u64, usize)> {
        self.ring@
    }
}

impl ConsistentHashRing {
    /// The number of virtual nodes per real node.
    pub closed spec fn vnode_count(self) -> usize {
        self.vnodes
    }

    /// The entries are ascending by position, and they are the virtual points of the nodes on
    /// the ring. This holds of a new ring, and every operation keeps it.
    pub open spec fn well_formed(self) -> bool {
        &&& sorting::ascending(self@, by_position())
        &&& has_all_points(self@, self.vnode_count())
    }

    /// Creates a ring with `nodes` node ids and `vnodes` virtual nodes each.
    pub fn new(nodes: &[usize], vnodes: usize) -> (ring: Self)
        ensures
            ring.well_formed(),
            ring.vnode_count() == vnodes,
            sorting::stably_sorted(entries_of_all(nodes@, vnodes), ring@, by_position()),
            ring@.len() == nodes@.len() * vnodes,
            forall|i: int, j: int|
                0 <= i < j < ring@.len() ==> (#[trigger] ring@[i]).0 <= (#[trigger] ring@[j]).0,
            forall|entry: (u64, usize)| #[trigger]
                ring@.contains(entry) <==> nodes@.contains(entry.1) && exists|vnode: usize|
                    vnode < vnodes && entry.0 == DefaultHasher::spec_finish(
                            digest::text_writes(
                                "node-"@ + label::decimal(entry.1 as nat) + "-vn-"@
                                    + #[trigger] label::decimal(vnode as nat),
                            ),
                        ),
    {
        let mut ring: Vec<(u64, usize)> = Vec::new();
        for i in 0..nodes.len()
            invariant
                ring@ == entries_of_all(nodes@.take(i as int), vnodes),
        {
            assert(nodes@.take(i + 1).drop_last() =~= nodes@.take(i as int));
            push_entries(&mut ring, nodes[i], vnodes);
        }
        assert(nodes@.take(nodes.len() as int) =~= nodes@);
        let sorted: Vec<(u64, usize)> = sort_entries(ring);
        proof {
            lemma_built_points(nodes@, vnodes, sorted@);
            law_built_entries(nodes@, vnodes, sorted@);
        }
        ConsistentHashRing { ring: sorted, vnodes }
    }

    /// Number of real nodes on the ring.
    pub fn node_count(&self) -> (count: usize)
        ensures
            count == nodes_on(self@).len(),
    {
        let mut seen: HashSet<usize> = HashSet::new();
        for i in 0..self.ring.len()
            invariant
                seen@ == nodes_on(self.ring@.take(i as int)),
        {
            let ghost before = self.ring@.take(i as int);
            let ghost after = self.ring@.take(i + 1);
            seen.insert(self.ring[i].1);
            proof {
                let node = |entry: (u64, usize)| entry.1;
                assert(after =~= before.push(self.ring@[i as int]));
                assert(after.map_values(node) =~= before.map_values(node).push(
                    self.ring@[i as int].1,
                ));
                before.map_values(node).lemma_push_to_set_commute(self.ring@[i as int].1);
            }
        }
        assert(self.ring@.take(self.ring.len() as int) =~= self.ring@);
        seen.len()
    }

    /// Finds the node for `key`: the owner of the position that the key hashes to. On an empty
    /// ring that is node zero, and the key is not hashed.
    pub fn partition<K: Hash>(&self, key: &K, _num_partitions: usize) -> (node: usize)
        requires
            self.well_formed(),
        ensures
            self@.len() == 0 ==> node == 0,
            self@.len() > 0 ==> exists|position: u64| #[trigger]
                digest::digests_to(key, position) && node == owner(self@, position),
    {
        if self.ring.len() == 0 {
            return 0;
        }
        let position: u64 = digest::digest_of_key(key);
        self.node_at(position)
    }

    /// Finds the node that owns `position`.
    pub fn node_at(&self, position: u64) -> (node: usize)
        requires
            self.well_formed(),
        ensures
            node == owner(self@, position),
    {
        if self.ring.len() == 0 {
            return 0;
        }
        let mut low: usize = 0;
        let mut high: usize = self.ring.len();
        while low < high
            invariant
                0 <= low <= high <= self.ring@.len(),
                sorting::ascending(self.ring@, by_position()),
                forall|i: int| 0 <= i < low ==> (#[trigger] self.ring@[i]).0 < position,
                forall|i: int| high <= i < self.ring@.len() ==> (#[trigger] self.ring@[i]).0 >= position,
            decreases high - low,
        {
            let middle: usize = low + (high - low) / 2;
            if self.ring[middle].0 < position {
                assert forall|i: int| 0 <= i <= middle implies (#[trigger] self.ring@[i]).0 < position by {
                    assert(i == middle || by_position()(self.ring@[i], self.ring@[middle as int]));
                }
                low = middle + 1;
            } else {
                assert forall|i: int| middle <= i < self.ring@.len() implies (#[trigger] self.ring@[i]).0 >= position by {
                    assert(i == middle || by_position()(self.ring@[middle as int], self.ring@[i]));
                }
                high = middle;
            }
        }
        proof {
            lemma_clockwise_split(self.ring@, position, low as int);
        }
        if low < self.ring.len() {
            self.ring[low].1
        } else {
            self.ring[0].1
        }
    }

    /// Adds a node to the ring.
    pub fn add_node(&mut self, node: usize)
        ensures
            old(self).well_formed() ==> final(self).well_formed(),
            final(self).vnode_count() == old(self).vnode_count(),
            sorting::stably_sorted(
                old(self)@ + entries_of(node, old(self).vnode_count()),
                final(self)@,
                by_position(),
            ),
            final(self)@.len() == old(self)@.len() + old(self).vnode_count(),
            forall|i: int, j: int|
                0 <= i < j < final(self)@.len() ==> (#[trigger] final(self)@[i]).0 <= (
                #[trigger] final(self)@[j]).0,
            forall|entry: (u64, usize)| #[trigger]
                final(self)@.contains(entry) <==> old(self)@.contains(entry) || (entry.1 == node
                    && exists|vnode: usize|
                    vnode < old(self).vnode_count() && entry.0 == DefaultHasher::spec_finish(
                            digest::text_writes(
                                "node-"@ + label::decimal(node as nat) + "-vn-"@
                                    + #[trigger] label::decimal(vnode as nat),
                            ),
                        )),
    {
        let mut ring: Vec<(u64, usize)> = Vec::new();
        ring.append(&mut self.ring);
        assert(ring@ =~= old(self).ring@);
        push_entries(&mut ring, node, self.vnodes);
        self.ring = sort_entries(ring);
        proof {
            law_joined_entries(old(self)@, node, old(self).vnode_count(), self.ring@);
            if old(self).well_formed() {
                lemma_joined_points(old(self)@, node, old(self).vnode_count(), self.ring@);
            }
        }
    }

    /// Removes a node from the ring.
    pub fn remove_node(&mut self, node: usize)
        ensures
            final(self)@ == without(old(self)@, node),
            forall|entry: (u64, usize)| #[trigger]
                final(self)@.contains(entry) <==> old(self)@.contains(entry) && entry.1 != node,
            final(self).vnode_count() == old(self).vnode_count(),
            old(self).well_formed() ==> final(self).well_formed(),
    {
        let mut kept: Vec<(u64, usize)> = Vec::new();
        let ghost other = not_of(node);
        for i in 0..self.ring.len()
            invariant
                *self == *old(self),
                other == not_of(node),
                kept@ == self.ring@.take(i as int).filter(other),
        {
            proof {
                assert(self.ring@.take(i + 1) =~= self.ring@.take(i as int).push(self.ring@[i as int]));
                self.ring@.take(i as int).lemma_filter_push(self.ring@[i as int], other);
            }
            if self.ring[i].1 != node {
                kept.push(self.ring[i]);
            }
        }
        proof {
            assert(self.ring@.take(self.ring.len() as int) =~= self.ring@);
            law_left_entries(self.ring@, node);
            if old(self).well_formed() {
                sorting::lemma_filter_ascending(self.ring@, by_position(), other);
                lemma_left_points(self.ring@, node, self.vnodes);
            }
        }
        self.ring = kept;
    }
}

/// Appends the entries of a node.
fn push_entries(ring: &mut Vec<(u64, usize)>, node: usize, vnodes: usize)
    ensures
        final(ring)@ == old(ring)@ + entries_of(node, vnodes),
{
    for vnode in 0..vnodes
        invariant
            ring@ == old(ring)@ + entries_of(node, vnodes).take(vnode as int),
    {
        let name: String = label::name_vnode(node, vnode);
        let position: u64 = digest::digest_of_text(&name);
        ring.push((position, node));
        assert(ring@ =~= old(ring)@ + entries_of(node, vnodes).take(vnode + 1));
    }
    assert(entries_of(node, vnodes).take(vnodes as int) =~= entries_of(node, vnodes));
}

/// Sorts entries by position.
fn sort_entries(entries: Vec<(u64, usize)>) -> (sorted: Vec<(u64, usize)>)
    ensures
        sorting::stably_sorted(entries@, sorted@, by_position()),
{
    let compare = |a: &(u64, usize), b: &(u64, usize)| -> (le: bool)
        ensures
            le == (a.0 <= b.0),
        { a.0 <= b.0 };
    sorting::merge_sort(entries, compare, Ghost(by_position()))
}

/// Where `start` parts the entries below `position` from the rest, clockwise order starts
/// there.
proof fn lemma_clockwise_split(ring: Seq<(u64, usize)>, position: u64, start: int)
    requires
        0 <= start <= ring.len(),
        forall|i: int| 0 <= i < start ==> (#[trigger] ring[i]).0 < position,
        forall|i: int| start <= i < ring.len() ==> (#[trigger] ring[i]).0 >= position,
    ensures
        clockwise(ring, position) == ring.skip(start) + ring.take(start),
{
    let above = at_or_after(position);
    let below = before(position);
    let head = ring.take(start);
    let tail = ring.skip(start);
    assert(head + tail =~= ring);
    Seq::filter_distributes_over_add(head, tail, above);
    Seq::filter_distributes_over_add(head, tail, below);
    head.lemma_all_neg_filter_empty(above);
    tail.lemma_all_neg_filter_empty(below);
    lemma_filter_all(head, below);
    lemma_filter_all(tail, above);
    assert(clockwise(ring, position) =~= tail + head);
}

/// A filter that keeps everything changes nothing.
proof fn lemma_filter_all<T>(values: Seq<T>, keep: spec_fn(T) -> bool)
    requires
        forall|i: int| 0 <= i < values.len() ==> keep(#[trigger] values[i]),
    ensures
        values.filter(keep) == values,
    decreases values.len(),
{
    if values.len() == 0 {
        reveal(Seq::filter);
    } else {
        let fewer = values.drop_last();
        lemma_filter_all(fewer, keep);
        assert(values =~= fewer.push(values.last()));
        fewer.lemma_filter_push(values.last(), keep);
    }
}

/// The order of entries by position is a total preorder.
proof fn lemma_by_position()
    ensures
        sorting::total_preorder(by_position()),
{
}

/// Clockwise order without a node is the clockwise order of the ring without it.
proof fn lemma_clockwise_without(ring: Seq<(u64, usize)>, node: usize, position: u64)
    ensures
        clockwise(without(ring, node), position) == without(clockwise(ring, position), node),
{
    let above = at_or_after(position);
    let below = before(position);
    let other = not_of(node);
    sorting::lemma_filters_commute(ring, above, other);
    sorting::lemma_filters_commute(ring, below, other);
    Seq::filter_distributes_over_add(ring.filter(above), ring.filter(below), other);
}

/// Clockwise order has all entries of the ring.
proof fn lemma_clockwise_len(ring: Seq<(u64, usize)>, position: u64)
    ensures
        clockwise(ring, position).len() == ring.len(),
    decreases ring.len(),
{
    let above = at_or_after(position);
    let below = before(position);
    if ring.len() == 0 {
        reveal(Seq::filter);
    } else {
        let fewer = ring.drop_last();
        let last = ring.last();
        lemma_clockwise_len(fewer, position);
        assert(ring =~= fewer.push(last));
        fewer.lemma_filter_push(last, above);
        fewer.lemma_filter_push(last, below);
    }
}

/// Sorting in the entries of a node changes nothing but the entries of that node.
proof fn lemma_added_without(
    ring: Seq<(u64, usize)>,
    node: usize,
    vnodes: usize,
    after: Seq<(u64, usize)>,
)
    requires
        sorting::ascending(ring, by_position()),
        sorting::stably_sorted(ring + entries_of(node, vnodes), after, by_position()),
    ensures
        without(after, node) == without(ring, node),
{
    let le = by_position();
    let other = not_of(node);
    let added = entries_of(node, vnodes);
    lemma_by_position();
    sorting::lemma_filter_ascending(after, le, other);
    sorting::lemma_filter_ascending(ring, le, other);
    assert forall|pivot: (u64, usize)| #[trigger]
        sorting::peers(without(after, node), le, pivot) == sorting::peers(
            without(ring, node),
            le,
            pivot,
        ) by {
        let peer = |value: (u64, usize)| le(value, pivot) && le(pivot, value);
        sorting::lemma_filters_commute(after, other, peer);
        sorting::lemma_filters_commute(ring, other, peer);
        assert(sorting::peers(after, le, pivot) == sorting::peers(ring + added, le, pivot));
        Seq::filter_distributes_over_add(ring, added, peer);
        Seq::filter_distributes_over_add(ring.filter(peer), added.filter(peer), other);
        sorting::lemma_filters_commute(added, other, peer);
        added.lemma_all_neg_filter_empty(other);
        Seq::<(u64, usize)>::empty().lemma_all_neg_filter_empty(peer);
        assert(after.filter(peer).filter(other) =~= ring.filter(peer).filter(other));
    }
    sorting::lemma_sorted_unique(without(after, node), without(ring, node), le);
}

/// A ring without entries of a node is left as it is by taking the node out.
proof fn lemma_without_absent(ring: Seq<(u64, usize)>, node: usize)
    requires
        !nodes_on(ring).contains(node),
    ensures
        without(ring, node) == ring,
{
    let ids = ring.map_values(|entry: (u64, usize)| entry.1);
    assert forall|i: int| 0 <= i < ring.len() implies not_of(node)(#[trigger] ring[i]) by {
        assert(ids[i] == ring[i].1);
        assert(ids.contains(ids[i]));
    }
    lemma_filter_all(ring, not_of(node));
}

/// When a node leaves, its keys go to the next of the remaining nodes clockwise, and no other
/// key moves.
pub proof fn law_leaving_node(ring: Seq<(u64, usize)>, node: usize, position: u64)
    ensures
        owner(ring, position) != node ==> owner(without(ring, node), position) == owner(
            ring,
            position,
        ),
        without(ring, node).len() > 0 ==> owner(without(ring, node), position) == without(
            clockwise(ring, position),
            node,
        )[0].1,
        without(ring, node).len() > 0 ==> owner(without(ring, node), position) != node,
{
    let order = clockwise(ring, position);
    let other = not_of(node);
    lemma_clockwise_without(ring, node, position);
    lemma_clockwise_len(ring, position);
    lemma_clockwise_len(without(ring, node), position);
    if ring.len() == 0 {
        ring.lemma_filter_len(other);
    } else {
        let first = seq![order[0]];
        assert(order =~= first + order.skip(1));
        Seq::filter_distributes_over_add(first, order.skip(1), other);
        if owner(ring, position) != node {
            lemma_filter_all(first, other);
            assert(without(order, node)[0] == order[0]);
        }
        if without(ring, node).len() > 0 {
            order.lemma_filter_pred(other, 0);
        }
    }
}

/// The entry that owns a position: the first one from there on, or the first of all where
/// there is none.
proof fn lemma_first(ring: Seq<(u64, usize)>, position: u64) -> (first: int)
    requires
        ring.len() > 0,
        sorting::ascending(ring, by_position()),
    ensures
        0 <= first < ring.len(),
        owner(ring, position) == ring[first].1,
        sorting::peers(ring, by_position(), ring[first]).len() > 0,
        sorting::peers(ring, by_position(), ring[first])[0] == ring[first],
        ({
            ||| ring[first].0 >= position && forall|i: int|
                0 <= i < ring.len() && (#[trigger] ring[i]).0 >= position ==> ring[first].0
                    <= ring[i].0
            ||| forall|i: int|
                0 <= i < ring.len() ==> (#[trigger] ring[i]).0 < position && ring[first].0
                    <= ring[i].0
        }),
{
    let start = lemma_start(ring, position, ring.len() as int);
    lemma_clockwise_split(ring, position, start);
    let first = if start < ring.len() {
        start
    } else {
        0
    };
    let le = by_position();
    let pivot = ring[first];
    let peer = |value: (u64, usize)| le(value, pivot) && le(pivot, value);
    assert forall|i: int| 0 <= i < first implies !peer(#[trigger] ring[i]) by {}
    lemma_filter_first(ring, peer, first);
    assert forall|i: int| first <= i < ring.len() implies pivot.0 <= (#[trigger] ring[i]).0 by {
        assert(i == first || le(ring[first], ring[i]));
    }
    first
}

/// Where the entries from `position` on start, among the first `upto`.
proof fn lemma_start(ring: Seq<(u64, usize)>, position: u64, upto: int) -> (start: int)
    requires
        0 <= upto <= ring.len(),
        sorting::ascending(ring, by_position()),
        forall|i: int| upto <= i < ring.len() ==> (#[trigger] ring[i]).0 >= position,
    ensures
        0 <= start <= upto,
        forall|i: int| 0 <= i < start ==> (#[trigger] ring[i]).0 < position,
        forall|i: int| start <= i < ring.len() ==> (#[trigger] ring[i]).0 >= position,
    decreases upto,
{
    if upto == 0 || ring[upto - 1].0 < position {
        assert forall|i: int| 0 <= i < upto implies (#[trigger] ring[i]).0 < position by {
            assert(i == upto - 1 || by_position()(ring[i], ring[upto - 1]));
        }
        upto
    } else {
        lemma_start(ring, position, upto - 1)
    }
}

/// The first value that a filter picks comes out first.
proof fn lemma_filter_first<T>(values: Seq<T>, keep: spec_fn(T) -> bool, first: int)
    requires
        0 <= first < values.len(),
        keep(values[first]),
        forall|i: int| 0 <= i < first ==> !keep(#[trigger] values[i]),
    ensures
        values.filter(keep).len() > 0,
        values.filter(keep)[0] == values[first],
{
    let head = values.take(first);
    let one = seq![values[first]];
    let tail = values.skip(first + 1);
    assert(values =~= head + (one + tail));
    Seq::filter_distributes_over_add(head, one + tail, keep);
    Seq::filter_distributes_over_add(one, tail, keep);
    head.lemma_all_neg_filter_empty(keep);
    lemma_filter_all(one, keep);
}

/// An entry that is first among its peers stays so when entries of a node are sorted in.
proof fn lemma_stays_first(
    ring: Seq<(u64, usize)>,
    node: usize,
    vnodes: usize,
    after: Seq<(u64, usize)>,
    entry: (u64, usize),
)
    requires
        sorting::stably_sorted(ring + entries_of(node, vnodes), after, by_position()),
        sorting::peers(ring, by_position(), entry).len() > 0,
        sorting::peers(ring, by_position(), entry)[0] == entry,
    ensures
        forall|other: (u64, usize)|
            other.0 == entry.0 ==> #[trigger] sorting::peers(after, by_position(), other)[0]
                == entry,
{
    let le = by_position();
    let added = entries_of(node, vnodes);
    let peer = |value: (u64, usize)| le(value, entry) && le(entry, value);
    Seq::filter_distributes_over_add(ring, added, peer);
    assert(sorting::peers(after, le, entry) == sorting::peers(ring + added, le, entry));
    assert(sorting::peers(after, le, entry)[0] == entry);
    assert forall|other: (u64, usize)| other.0 == entry.0 implies #[trigger] sorting::peers(
        after,
        le,
        other,
    )[0] == entry by {
        let same = |value: (u64, usize)| le(value, other) && le(other, value);
        assert(same =~= peer);
    }
}

/// When a node joins, every key stays where it is or goes to the new node.
pub proof fn law_joining_node(
    ring: Seq<(u64, usize)>,
    node: usize,
    vnodes: usize,
    after: Seq<(u64, usize)>,
    position: u64,
)
    requires
        sorting::ascending(ring, by_position()),
        sorting::stably_sorted(ring + entries_of(node, vnodes), after, by_position()),
    ensures
        owner(after, position) == node || owner(after, position) == owner(ring, position),
{
    let both = ring + entries_of(node, vnodes);
    if after.len() > 0 {
        let now = lemma_first(after, position);
        let found = after[now];
        if found.1 != node {
            assert(after.contains(found));
            lemma_sorted_contains(both, after, found);
            let i = choose|i: int| 0 <= i < both.len() && both[i] == found;
            if i >= ring.len() {
                assert(entries_of(node, vnodes)[i - ring.len()] == found);
            }
            assert(ring[i] == found);
            let first = lemma_first(ring, position);
            let entry = ring[first];
            assert(both[first] == entry);
            assert(both.contains(entry));
            lemma_sorted_contains(both, after, entry);
            let place = choose|i: int| 0 <= i < after.len() && after[i] == entry;
            assert(after[place].0 == entry.0);
            assert(found.0 == entry.0);
            lemma_stays_first(ring, node, vnodes, after, entry);
            assert(sorting::peers(after, by_position(), found)[0] == entry);
        }
    } else if ring.len() > 0 {
        assert(both[0] == ring[0]);
        assert(both.contains(ring[0]));
        lemma_sorted_contains(both, after, ring[0]);
    }
}

/// Adding a node that is on the ring already leaves every key and the nodes where they are,
/// and removing it once takes it off altogether.
pub proof fn law_rejoining_node(
    ring: Seq<(u64, usize)>,
    node: usize,
    vnodes: usize,
    after: Seq<(u64, usize)>,
    position: u64,
)
    requires
        sorting::ascending(ring, by_position()),
        has_all_points(ring, vnodes),
        nodes_on(ring).contains(node),
        sorting::stably_sorted(ring + entries_of(node, vnodes), after, by_position()),
    ensures
        owner(after, position) == owner(ring, position),
        nodes_on(after) == nodes_on(ring),
        without(after, node) == without(ring, node),
        !nodes_on(without(after, node)).contains(node),
{
    let added = entries_of(node, vnodes);
    let both = ring + added;
    lemma_nodes_on(ring, node);
    let own = choose|i: int| 0 <= i < ring.len() && (#[trigger] ring[i]).1 == node;
    assert(ring.contains(ring[own]));
    law_joined_members(ring, node, vnodes, after);
    assert(nodes_on(ring).insert(node) =~= nodes_on(ring));
    lemma_added_without(ring, node, vnodes, after);
    law_left_members(after, node);
    assert forall|entry: (u64, usize)| after.contains(entry) == ring.contains(entry) by {
        lemma_sorted_contains(both, after, entry);
        lemma_added_contains(ring, node, vnodes, entry);
    }
    let first = lemma_first(ring, position);
    let entry = ring[first];
    assert(ring.contains(entry) && after.contains(entry));
    let place = choose|i: int| 0 <= i < after.len() && after[i] == entry;
    let now = lemma_first(after, position);
    let found = after[now];
    assert(after.contains(found) && ring.contains(found));
    let i = choose|i: int| 0 <= i < ring.len() && ring[i] == found;
    assert(after[place].0 == entry.0 && ring[i].0 == found.0);
    lemma_stays_first(ring, node, vnodes, after, entry);
    assert(sorting::peers(after, by_position(), found)[0] == entry);
}

/// Sorting entries neither adds nor loses any.
proof fn lemma_sorted_contains(
    entries: Seq<(u64, usize)>,
    sorted: Seq<(u64, usize)>,
    entry: (u64, usize),
)
    requires
        sorting::stably_sorted(entries, sorted, by_position()),
    ensures
        sorted.contains(entry) == entries.contains(entry),
{
    let le = by_position();
    assert(sorting::peers(sorted, le, entry) == sorting::peers(entries, le, entry));
    if sorted.contains(entry) {
        let i = choose|i: int| 0 <= i < sorted.len() && sorted[i] == entry;
        lemma_peer_carries(sorted, entries, i);
    }
    if entries.contains(entry) {
        let i = choose|i: int| 0 <= i < entries.len() && entries[i] == entry;
        lemma_peer_carries(entries, sorted, i);
    }
}

/// Appending the entries of a node adds its virtual points.
proof fn lemma_added_contains(
    ring: Seq<(u64, usize)>,
    node: usize,
    vnodes: usize,
    entry: (u64, usize),
)
    ensures
        (ring + entries_of(node, vnodes)).contains(entry) <==> ring.contains(entry) || (entry.1
            == node && is_point(entry, vnodes)),
{
    let added = entries_of(node, vnodes);
    let both = ring + added;
    if both.contains(entry) {
        let i = choose|i: int| 0 <= i < both.len() && both[i] == entry;
        if i < ring.len() {
            assert(ring[i] == entry);
        } else {
            let vnode = (i - ring.len()) as usize;
            assert(added[vnode as int] == entry);
            assert(entry.0 == vnode_position(entry.1, vnode));
        }
    }
    if ring.contains(entry) {
        let i = choose|i: int| 0 <= i < ring.len() && ring[i] == entry;
        assert(both[i] == entry);
    }
    if entry.1 == node && is_point(entry, vnodes) {
        let vnode = choose|vnode: usize|
            vnode < vnodes && entry.0 == #[trigger] vnode_position(entry.1, vnode);
        assert(added[vnode as int] == entry);
        assert(both[ring.len() + vnode] == entry);
    }
}

/// The entries of several nodes are their virtual points.
proof fn lemma_all_contain(nodes: Seq<usize>, vnodes: usize, entry: (u64, usize))
    ensures
        entries_of_all(nodes, vnodes).contains(entry) <==> nodes.contains(entry.1) && is_point(
            entry,
            vnodes,
        ),
    decreases nodes.len(),
{
    if nodes.len() > 0 {
        let fewer = nodes.drop_last();
        let last = nodes.last();
        lemma_all_contain(fewer, vnodes, entry);
        lemma_added_contains(entries_of_all(fewer, vnodes), last, vnodes, entry);
        assert(nodes =~= fewer.push(last));
        if fewer.contains(entry.1) {
            let i = choose|i: int| 0 <= i < fewer.len() && fewer[i] == entry.1;
            assert(nodes[i] == entry.1);
        }
        if entry.1 == last {
            assert(nodes[nodes.len() - 1] == entry.1);
        }
        if nodes.contains(entry.1) {
            let i = choose|i: int| 0 <= i < nodes.len() && nodes[i] == entry.1;
            assert(i == nodes.len() - 1 || fewer[i] == entry.1);
        }
    }
}

/// A node is on the ring where the ring has an entry of it.
proof fn lemma_entry_of(ring: Seq<(u64, usize)>, node: usize) -> (entry: (u64, usize))
    requires
        nodes_on(ring).contains(node),
    ensures
        ring.contains(entry),
        entry.1 == node,
{
    lemma_nodes_on(ring, node);
    let i = choose|i: int| 0 <= i < ring.len() && (#[trigger] ring[i]).1 == node;
    ring[i]
}

/// The node of an entry is on the ring.
proof fn lemma_on_by_entry(ring: Seq<(u64, usize)>, entry: (u64, usize))
    requires
        ring.contains(entry),
    ensures
        nodes_on(ring).contains(entry.1),
{
    lemma_nodes_on(ring, entry.1);
    let i = choose|i: int| 0 <= i < ring.len() && ring[i] == entry;
    assert(ring[i].1 == entry.1);
}

/// A new ring has the virtual points of its nodes.
proof fn lemma_built_points(nodes: Seq<usize>, vnodes: usize, ring: Seq<(u64, usize)>)
    requires
        sorting::stably_sorted(entries_of_all(nodes, vnodes), ring, by_position()),
    ensures
        has_all_points(ring, vnodes),
{
    let entries = entries_of_all(nodes, vnodes);
    assert forall|entry: (u64, usize)| #[trigger]
        ring.contains(entry) <==> nodes_on(ring).contains(entry.1) && is_point(entry, vnodes) by {
        lemma_sorted_contains(entries, ring, entry);
        lemma_all_contain(nodes, vnodes, entry);
        if ring.contains(entry) {
            lemma_on_by_entry(ring, entry);
        }
        if nodes_on(ring).contains(entry.1) {
            let own = lemma_entry_of(ring, entry.1);
            lemma_sorted_contains(entries, ring, own);
            lemma_all_contain(nodes, vnodes, own);
        }
    }
}

/// A ring that a node joined has the virtual points of its nodes.
proof fn lemma_joined_points(
    ring: Seq<(u64, usize)>,
    node: usize,
    vnodes: usize,
    after: Seq<(u64, usize)>,
)
    requires
        has_all_points(ring, vnodes),
        sorting::stably_sorted(ring + entries_of(node, vnodes), after, by_position()),
    ensures
        has_all_points(after, vnodes),
{
    let both = ring + entries_of(node, vnodes);
    assert forall|entry: (u64, usize)| #[trigger]
        after.contains(entry) <==> nodes_on(after).contains(entry.1) && is_point(entry, vnodes) by {
        lemma_sorted_contains(both, after, entry);
        lemma_added_contains(ring, node, vnodes, entry);
        if after.contains(entry) {
            lemma_on_by_entry(after, entry);
        }
        if nodes_on(after).contains(entry.1) && entry.1 != node {
            let own = lemma_entry_of(after, entry.1);
            lemma_sorted_contains(both, after, own);
            lemma_added_contains(ring, node, vnodes, own);
            lemma_on_by_entry(ring, own);
        }
    }
}

/// A ring that a node left has the virtual points of its nodes.
proof fn lemma_left_points(ring: Seq<(u64, usize)>, node: usize, vnodes: usize)
    requires
        has_all_points(ring, vnodes),
    ensures
        has_all_points(without(ring, node), vnodes),
{
    let rest = without(ring, node);
    law_left_members(ring, node);
    assert forall|entry: (u64, usize)| #[trigger]
        rest.contains(entry) <==> nodes_on(rest).contains(entry.1) && is_point(entry, vnodes) by {
        if rest.contains(entry) {
            ring.lemma_filter_contains_rev(not_of(node), entry);
            lemma_on_by_entry(rest, entry);
        }
        if nodes_on(rest).contains(entry.1) && is_point(entry, vnodes) {
            assert(ring.contains(entry));
            let i = choose|i: int| 0 <= i < ring.len() && ring[i] == entry;
            ring.lemma_filter_contains(not_of(node), i);
        }
    }
}

/// A node that joins and leaves again leaves the ring as it was.
pub proof fn law_join_then_leave(
    ring: Seq<(u64, usize)>,
    node: usize,
    vnodes: usize,
    after: Seq<(u64, usize)>,
)
    requires
        !nodes_on(ring).contains(node),
        sorting::ascending(ring, by_position()),
        sorting::stably_sorted(ring + entries_of(node, vnodes), after, by_position()),
    ensures
        without(after, node) == ring,
{
    lemma_added_without(ring, node, vnodes, after);
    lemma_without_absent(ring, node);
}

/// A ring built with some nodes and joined by another is the ring built with all of them.
pub proof fn law_built_or_joined(
    nodes: Seq<usize>,
    node: usize,
    vnodes: usize,
    some: Seq<(u64, usize)>,
    joined: Seq<(u64, usize)>,
    built: Seq<(u64, usize)>,
)
    requires
        sorting::stably_sorted(entries_of_all(nodes, vnodes), some, by_position()),
        sorting::stably_sorted(some + entries_of(node, vnodes), joined, by_position()),
        sorting::stably_sorted(entries_of_all(nodes.push(node), vnodes), built, by_position()),
    ensures
        joined == built,
{
    let le = by_position();
    let all = entries_of_all(nodes, vnodes);
    let added = entries_of(node, vnodes);
    lemma_by_position();
    assert(nodes.push(node).drop_last() =~= nodes);
    assert forall|pivot: (u64, usize)| #[trigger]
        sorting::peers(joined, le, pivot) == sorting::peers(built, le, pivot) by {
        let peer = |value: (u64, usize)| le(value, pivot) && le(pivot, value);
        Seq::filter_distributes_over_add(all, added, peer);
        Seq::filter_distributes_over_add(some, added, peer);
        assert(sorting::peers(some, le, pivot) == sorting::peers(all, le, pivot));
        assert(sorting::peers(joined, le, pivot) == sorting::peers(some + added, le, pivot));
        assert(sorting::peers(built, le, pivot) == sorting::peers(all + added, le, pivot));
    }
    sorting::lemma_sorted_unique(joined, built, le);
}

/// A ring that is not empty assigns every position to a node on it.
pub proof fn law_owner_on_ring(ring: Seq<(u64, usize)>, position: u64)
    requires
        ring.len() > 0,
    ensures
        nodes_on(ring).contains(owner(ring, position)),
{
    let above = at_or_after(position);
    let below = before(position);
    lemma_clockwise_len(ring, position);
    let entry = clockwise(ring, position)[0];
    assert(ring.contains(entry)) by {
        if ring.filter(above).len() > 0 {
            assert(ring.filter(above)[0] == entry);
            ring.lemma_filter_contains_rev(above, entry);
        } else {
            assert(ring.filter(below)[0] == entry);
            ring.lemma_filter_contains_rev(below, entry);
        }
    }
    let i = choose|i: int| 0 <= i < ring.len() && ring[i] == entry;
    let ids = ring.map_values(|entry: (u64, usize)| entry.1);
    assert(ids[i] == entry.1);
    assert(ids.contains(entry.1));
}

/// A node is on the ring where one of the entries is its own.
proof fn lemma_nodes_on(ring: Seq<(u64, usize)>, node: usize)
    ensures
        nodes_on(ring).contains(node) <==> exists|i: int|
            0 <= i < ring.len() && (#[trigger] ring[i]).1 == node,
{
    let ids = ring.map_values(|entry: (u64, usize)| entry.1);
    if exists|i: int| 0 <= i < ring.len() && (#[trigger] ring[i]).1 == node {
        let i = choose|i: int| 0 <= i < ring.len() && (#[trigger] ring[i]).1 == node;
        assert(ids[i] == node);
    }
    if nodes_on(ring).contains(node) {
        let i = choose|i: int| 0 <= i < ids.len() && ids[i] == node;
        assert(ring[i].1 == node);
    }
}

/// Sorting entries neither adds nor loses a node.
proof fn lemma_sorted_nodes(entries: Seq<(u64, usize)>, sorted: Seq<(u64, usize)>)
    requires
        sorting::stably_sorted(entries, sorted, by_position()),
    ensures
        nodes_on(sorted) == nodes_on(entries),
{
    let le = by_position();
    assert forall|node: usize| nodes_on(sorted).contains(node) == nodes_on(entries).contains(node) by {
        lemma_nodes_on(sorted, node);
        lemma_nodes_on(entries, node);
        if nodes_on(sorted).contains(node) {
            let i = choose|i: int| 0 <= i < sorted.len() && (#[trigger] sorted[i]).1 == node;
            lemma_peer_carries(sorted, entries, i);
        }
        if nodes_on(entries).contains(node) {
            let i = choose|i: int| 0 <= i < entries.len() && (#[trigger] entries[i]).1 == node;
            assert(sorting::peers(sorted, le, entries[i]) == sorting::peers(entries, le, entries[i]));
            lemma_peer_carries(entries, sorted, i);
        }
    }
    assert(nodes_on(sorted) =~= nodes_on(entries));
}

/// An entry stands in every sequence with the same peers.
proof fn lemma_peer_carries(from: Seq<(u64, usize)>, to: Seq<(u64, usize)>, i: int)
    requires
        0 <= i < from.len(),
        sorting::peers(from, by_position(), from[i]) == sorting::peers(to, by_position(), from[i]),
    ensures
        exists|j: int| 0 <= j < to.len() && #[trigger] to[j] == from[i],
{
    let le = by_position();
    let pivot = from[i];
    let peer = |value: (u64, usize)| le(value, pivot) && le(pivot, value);
    from.lemma_filter_contains(peer, i);
    to.lemma_filter_contains_rev(peer, pivot);
    let j = choose|j: int| 0 <= j < to.len() && to[j] == pivot;
    assert(to[j] == from[i]);
}

/// The entries of a node are its own, and it has one where there are virtual nodes at all.
proof fn lemma_entries_nodes(nodes: Seq<usize>, vnodes: usize)
    requires
        vnodes > 0,
    ensures
        nodes_on(entries_of_all(nodes, vnodes)) == nodes.to_set(),
    decreases nodes.len(),
{
    let entries = entries_of_all(nodes, vnodes);
    if nodes.len() == 0 {
        assert(nodes_on(entries) =~= nodes.to_set());
    } else {
        let fewer = nodes.drop_last();
        let last = nodes.last();
        lemma_entries_nodes(fewer, vnodes);
        lemma_joined_nodes(entries_of_all(fewer, vnodes), last, vnodes);
        assert(nodes =~= fewer.push(last));
        fewer.lemma_push_to_set_commute(last);
    }
}

/// Appending the entries of a node puts that node, and no other, on the ring.
proof fn lemma_joined_nodes(ring: Seq<(u64, usize)>, node: usize, vnodes: usize)
    requires
        vnodes > 0,
    ensures
        nodes_on(ring + entries_of(node, vnodes)) == nodes_on(ring).insert(node),
{
    let added = entries_of(node, vnodes);
    let both = ring + added;
    assert forall|id: usize| nodes_on(both).contains(id) == nodes_on(ring).insert(node).contains(id) by {
        lemma_nodes_on(both, id);
        lemma_nodes_on(ring, id);
        if nodes_on(both).contains(id) {
            let i = choose|i: int| 0 <= i < both.len() && (#[trigger] both[i]).1 == id;
            if i < ring.len() {
                assert(ring[i].1 == id);
            } else {
                assert(added[i - ring.len()].1 == id);
            }
        }
        if id == node {
            assert(added[0].1 == node);
            assert(both[ring.len() as int].1 == node);
        }
        if nodes_on(ring).contains(id) {
            let i = choose|i: int| 0 <= i < ring.len() && (#[trigger] ring[i]).1 == id;
            assert(both[i].1 == id);
        }
    }
    assert(nodes_on(both) =~= nodes_on(ring).insert(node));
}

/// A new ring has the nodes that it was built with.
pub proof fn law_built_members(nodes: Seq<usize>, vnodes: usize, ring: Seq<(u64, usize)>)
    requires
        vnodes > 0,
        sorting::stably_sorted(entries_of_all(nodes, vnodes), ring, by_position()),
    ensures
        nodes_on(ring) == nodes.to_set(),
{
    lemma_entries_nodes(nodes, vnodes);
    lemma_sorted_nodes(entries_of_all(nodes, vnodes), ring);
}

/// A node that joins is on the ring, together with the nodes that were.
pub proof fn law_joined_members(
    ring: Seq<(u64, usize)>,
    node: usize,
    vnodes: usize,
    after: Seq<(u64, usize)>,
)
    requires
        vnodes > 0,
        sorting::stably_sorted(ring + entries_of(node, vnodes), after, by_position()),
    ensures
        nodes_on(after) == nodes_on(ring).insert(node),
{
    lemma_joined_nodes(ring, node, vnodes);
    lemma_sorted_nodes(ring + entries_of(node, vnodes), after);
}

/// A node that leaves is not on the ring any more, and all others still are.
pub proof fn law_left_members(ring: Seq<(u64, usize)>, node: usize)
    ensures
        nodes_on(without(ring, node)) == nodes_on(ring).remove(node),
{
    let rest = without(ring, node);
    let other = not_of(node);
    assert forall|id: usize| nodes_on(rest).contains(id) == nodes_on(ring).remove(node).contains(id) by {
        lemma_nodes_on(rest, id);
        lemma_nodes_on(ring, id);
        if nodes_on(rest).contains(id) {
            let i = choose|i: int| 0 <= i < rest.len() && (#[trigger] rest[i]).1 == id;
            ring.lemma_filter_pred(other, i);
            ring.lemma_filter_contains_rev(other, rest[i]);
            let j = choose|j: int| 0 <= j < ring.len() && ring[j] == rest[i];
            assert(ring[j].1 == id);
        }
        if nodes_on(ring).contains(id) && id != node {
            let i = choose|i: int| 0 <= i < ring.len() && (#[trigger] ring[i]).1 == id;
            ring.lemma_filter_contains(other, i);
            let j = choose|j: int| 0 <= j < rest.len() && rest[j] == ring[i];
            assert(rest[j].1 == id);
        }
    }
    assert(nodes_on(rest) =~= nodes_on(ring).remove(node));
}

/// A key whose hashing is consistent is always assigned to the same node.
pub proof fn law_same_key_same_node<K: Hash>(
    ring: Seq<(u64, usize)>,
    key: &K,
    one: u64,
    other: u64,
)
    requires
        digest::digests_consistently(key),
        digest::digests_to(key, one),
        digest::digests_to(key, other),
    ensures
        owner(ring, one) == owner(ring, other),
{
}

/// An entry stands at a virtual point of its node where its position is the digest of the name
/// of one of the virtual nodes: the words `node` and `vn`, each with a full decimal number.
pub proof fn law_points_by_name(entry: (u64, usize), vnodes: usize)
    ensures
        is_point(entry, vnodes) <==> exists|vnode: usize|
            vnode < vnodes && entry.0 == DefaultHasher::spec_finish(
                    digest::text_writes(
                        "node-"@ + label::decimal(entry.1 as nat) + "-vn-"@
                            + #[trigger] label::decimal(vnode as nat),
                    ),
                ),
{
    if is_point(entry, vnodes) {
        let vnode = choose|vnode: usize|
            vnode < vnodes && entry.0 == #[trigger] vnode_position(entry.1, vnode);
        lemma_position_by_name(entry.1, vnode);
        assert(label::decimal(vnode as nat).len() >= 0);
    }
    if exists|vnode: usize|
        vnode < vnodes && entry.0 == DefaultHasher::spec_finish(
                    digest::text_writes(
                        "node-"@ + label::decimal(entry.1 as nat) + "-vn-"@
                            + #[trigger] label::decimal(vnode as nat),
                    ),
                ) {
        let vnode = choose|vnode: usize|
            vnode < vnodes && entry.0 == DefaultHasher::spec_finish(
                    digest::text_writes(
                        "node-"@ + label::decimal(entry.1 as nat) + "-vn-"@
                            + #[trigger] label::decimal(vnode as nat),
                    ),
                );
        lemma_position_by_name(entry.1, vnode);
        assert(entry.0 == vnode_position(entry.1, vnode));
    }
}

/// The position of a virtual node is the digest of its name.
proof fn lemma_position_by_name(node: usize, vnode: usize)
    ensures
        vnode_position(node, vnode) == DefaultHasher::spec_finish(
            digest::text_writes(
                "node-"@ + label::decimal(node as nat) + "-vn-"@ + label::decimal(vnode as nat),
            ),
        ),
{
}

/// The number of entries of several nodes.
proof fn lemma_entries_len(nodes: Seq<usize>, vnodes: usize)
    ensures
        entries_of_all(nodes, vnodes).len() == nodes.len() * vnodes,
    decreases nodes.len(),
{
    if nodes.len() > 0 {
        let fewer = nodes.drop_last();
        let rest = fewer.len();
        lemma_entries_len(fewer, vnodes);
        assert((rest + 1) * vnodes == rest * vnodes + vnodes) by (nonlinear_arith);
        assert(nodes.len() * vnodes == rest * vnodes + vnodes);
    } else {
        assert(0 * vnodes == 0) by (nonlinear_arith);
    }
}

/// A new ring ascends by position. It has as many entries as there are nodes times virtual
/// nodes, and these are the virtual points of its nodes: the digests of their names.
pub proof fn law_built_entries(nodes: Seq<usize>, vnodes: usize, ring: Seq<(u64, usize)>)
    requires
        sorting::stably_sorted(entries_of_all(nodes, vnodes), ring, by_position()),
    ensures
        ring.len() == nodes.len() * vnodes,
        forall|i: int, j: int|
            0 <= i < j < ring.len() ==> (#[trigger] ring[i]).0 <= (#[trigger] ring[j]).0,
        forall|entry: (u64, usize)| #[trigger]
            ring.contains(entry) <==> nodes.contains(entry.1) && exists|vnode: usize|
                vnode < vnodes && entry.0 == DefaultHasher::spec_finish(
                    digest::text_writes(
                        "node-"@ + label::decimal(entry.1 as nat) + "-vn-"@
                            + #[trigger] label::decimal(vnode as nat),
                    ),
                ),
{
    let entries = entries_of_all(nodes, vnodes);
    lemma_entries_len(nodes, vnodes);
    sorting::law_stably_sorted(entries, ring, by_position());
    lemma_positions_ascend(ring);
    assert forall|entry: (u64, usize)| #[trigger]
        ring.contains(entry) <==> nodes.contains(entry.1) && exists|vnode: usize|
            vnode < vnodes && entry.0 == DefaultHasher::spec_finish(
                    digest::text_writes(
                        "node-"@ + label::decimal(entry.1 as nat) + "-vn-"@
                            + #[trigger] label::decimal(vnode as nat),
                    ),
                ) by {
        lemma_sorted_contains(entries, ring, entry);
        lemma_all_contain(nodes, vnodes, entry);
        law_points_by_name(entry, vnodes);
    }
}

/// In an ascending ring no entry stands before one with a lower position.
proof fn lemma_positions_ascend(ring: Seq<(u64, usize)>)
    requires
        sorting::ascending(ring, by_position()),
    ensures
        forall|i: int, j: int|
            0 <= i < j < ring.len() ==> (#[trigger] ring[i]).0 <= (#[trigger] ring[j]).0,
{
    assert forall|i: int, j: int| 0 <= i < j < ring.len() implies (#[trigger] ring[i]).0 <= (
    #[trigger] ring[j]).0 by {
        assert(by_position()(ring[i], ring[j]));
    }
}

/// A node that joins adds its virtual points, the digests of their names, to the entries of
/// the ring, and the ring ascends by position.
pub proof fn law_joined_entries(
    ring: Seq<(u64, usize)>,
    node: usize,
    vnodes: usize,
    after: Seq<(u64, usize)>,
)
    requires
        sorting::stably_sorted(ring + entries_of(node, vnodes), after, by_position()),
    ensures
        after.len() == ring.len() + vnodes,
        forall|i: int, j: int|
            0 <= i < j < after.len() ==> (#[trigger] after[i]).0 <= (#[trigger] after[j]).0,
        forall|entry: (u64, usize)| #[trigger]
            after.contains(entry) <==> ring.contains(entry) || (entry.1 == node
                && exists|vnode: usize|
                vnode < vnodes && entry.0 == DefaultHasher::spec_finish(
                    digest::text_writes(
                        "node-"@ + label::decimal(node as nat) + "-vn-"@
                            + #[trigger] label::decimal(vnode as nat),
                    ),
                )),
{
    let both = ring + entries_of(node, vnodes);
    sorting::law_stably_sorted(both, after, by_position());
    lemma_positions_ascend(after);
    assert forall|entry: (u64, usize)| #[trigger]
        after.contains(entry) <==> ring.contains(entry) || (entry.1 == node
            && exists|vnode: usize|
            vnode < vnodes && entry.0 == DefaultHasher::spec_finish(
                    digest::text_writes(
                        "node-"@ + label::decimal(node as nat) + "-vn-"@
                            + #[trigger] label::decimal(vnode as nat),
                    ),
                )) by {
        lemma_sorted_contains(both, after, entry);
        lemma_added_contains(ring, node, vnodes, entry);
        law_points_by_name(entry, vnodes);
    }
}

/// When a node leaves, the entries of all others stay, as often as they were there, and in
/// their order; its own are gone.
pub proof fn law_left_entries(ring: Seq<(u64, usize)>, node: usize)
    ensures
        forall|entry: (u64, usize)| #[trigger]
            without(ring, node).contains(entry) <==> ring.contains(entry) && entry.1 != node,
        without(ring, node) == ring.filter(|entry: (u64, usize)| entry.1 != node),
        (forall|i: int, j: int|
            0 <= i < j < ring.len() ==> (#[trigger] ring[i]).0 <= (#[trigger] ring[j]).0)
            ==> forall|i: int, j: int|
            0 <= i < j < without(ring, node).len() ==> (#[trigger] without(ring, node)[i]).0 <= (
            #[trigger] without(ring, node)[j]).0,
{
    let other = not_of(node);
    assert(other =~= (|entry: (u64, usize)| entry.1 != node));
    assert forall|entry: (u64, usize)| #[trigger]
        without(ring, node).contains(entry) <==> ring.contains(entry) && entry.1 != node by {
        if without(ring, node).contains(entry) {
            ring.lemma_filter_contains_rev(other, entry);
            let i = choose|i: int|
                0 <= i < without(ring, node).len() && without(ring, node)[i] == entry;
            ring.lemma_filter_pred(other, i);
        }
        if ring.contains(entry) && entry.1 != node {
            let i = choose|i: int| 0 <= i < ring.len() && ring[i] == entry;
            ring.lemma_filter_contains(other, i);
        }
    }
    if forall|i: int, j: int|
        0 <= i < j < ring.len() ==> (#[trigger] ring[i]).0 <= (#[trigger] ring[j]).0 {
        assert(sorting::ascending(ring, by_position()));
        sorting::lemma_filter_ascending(ring, by_position(), other);
        lemma_positions_ascend(without(ring, node));
    }
}

/// The owner of a position is the node of the first entry from there on, and where there is
/// none, of the first entry of all. On an empty ring it is node zero.
pub proof fn law_owner_is_next_clockwise(ring: Seq<(u64, usize)>, position: u64)
    requires
        forall|i: int, j: int|
            0 <= i < j < ring.len() ==> (#[trigger] ring[i]).0 <= (#[trigger] ring[j]).0,
    ensures
        ring.len() == 0 ==> owner(ring, position) == 0,
        forall|i: int|
            0 <= i < ring.len() && (#[trigger] ring[i]).0 >= position && (forall|j: int|
                0 <= j < i ==> (#[trigger] ring[j]).0 < position) ==> owner(ring, position)
                == ring[i].1,
        ring.len() > 0 && (forall|i: int| 0 <= i < ring.len() ==> (#[trigger] ring[i]).0 < position)
            ==> owner(ring, position) == ring[0].1,
{
    assert(sorting::ascending(ring, by_position()));
    if ring.len() > 0 {
        let start = lemma_start(ring, position, ring.len() as int);
        lemma_clockwise_split(ring, position, start);
        assert forall|i: int|
            0 <= i < ring.len() && (#[trigger] ring[i]).0 >= position && (forall|j: int|
                0 <= j < i ==> (#[trigger] ring[j]).0 < position) implies owner(ring, position)
            == ring[i].1 by {
            if start < i {
                assert(ring[start].0 < position);
            }
            assert(start == i);
        }
        if start < ring.len() {
            assert(ring[start].0 >= position);
        }
    }
}

/// Clockwise order starts with the entries from the position on, and then goes on with those
/// before it, each in their order.
pub proof fn law_clockwise(ring: Seq<(u64, usize)>, position: u64, start: int)
    requires
        0 <= start <= ring.len(),
        forall|i: int| 0 <= i < start ==> (#[trigger] ring[i]).0 < position,
        forall|i: int| start <= i < ring.len() ==> (#[trigger] ring[i]).0 >= position,
    ensures
        clockwise(ring, position) == ring.skip(start) + ring.take(start),
{
    lemma_clockwise_split(ring, position, start);
}

/// Where no two nodes share a position, every node on a ring owns the positions of all its
/// virtual points.
pub proof fn law_owns_own_points(
    ring: Seq<(u64, usize)>,
    vnodes: usize,
    node: usize,
    vnode: usize,
)
    requires
        forall|i: int, j: int|
            0 <= i < j < ring.len() ==> (#[trigger] ring[i]).0 <= (#[trigger] ring[j]).0,
        has_all_points(ring, vnodes),
        nodes_on(ring).contains(node),
        vnode < vnodes,
        forall|i: int, j: int|
            0 <= i < ring.len() && 0 <= j < ring.len() && (#[trigger] ring[i]).0 == (
            #[trigger] ring[j]).0 ==> ring[i].1 == ring[j].1,
    ensures
        owner(
            ring,
            DefaultHasher::spec_finish(
                digest::text_writes(
                    "node-"@ + label::decimal(node as nat) + "-vn-"@ + label::decimal(vnode as nat),
                ),
            ),
        ) == node,
{
    let position = vnode_position(node, vnode);
    lemma_position_by_name(node, vnode);
    let entry = (position, node);
    assert(entry.0 == vnode_position(entry.1, vnode));
    assert(is_point(entry, vnodes));
    assert(ring.contains(entry));
    let place = choose|i: int| 0 <= i < ring.len() && ring[i] == entry;
    assert forall|i: int| 0 <= i < ring.len() && (#[trigger] ring[i]).0 == position implies ring[i].1
        == node by {
        assert(ring[i].0 == ring[place].0);
    }
    lemma_owner_unshared(ring, position, node, place);
}

/// A node owns a position that all entries there share with it.
proof fn lemma_owner_unshared(ring: Seq<(u64, usize)>, position: u64, node: usize, place: int)
    requires
        forall|i: int, j: int|
            0 <= i < j < ring.len() ==> (#[trigger] ring[i]).0 <= (#[trigger] ring[j]).0,
        0 <= place < ring.len(),
        ring[place].0 == position,
        forall|i: int|
            0 <= i < ring.len() && (#[trigger] ring[i]).0 == position ==> ring[i].1 == node,
    ensures
        owner(ring, position) == node,
{
    assert(sorting::ascending(ring, by_position()));
    let start = lemma_start(ring, position, ring.len() as int);
    assert(start <= place) by {
        if place < start {
            assert(ring[place].0 < position);
        }
    }
    assert(start == place || ring[start].0 <= ring[place].0);
    assert(ring[start].0 >= position);
    law_owner_is_next_clockwise(ring, position);
    assert(owner(ring, position) == ring[start].1);
}

/// A node is on the ring where it has an entry.
pub proof fn law_nodes_on(ring: Seq<(u64, usize)>, node: usize)
    ensures
        nodes_on(ring).contains(node) <==> exists|i: int|
            0 <= i < ring.len() && (#[trigger] ring[i]).1 == node,
{
    lemma_nodes_on(ring, node);
}

} // verus!
