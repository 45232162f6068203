//! A stable merge sort, and what it means to be sorted.

use vstd::prelude::*;

verus! {

/// `le` compares any two values, and is transitive.
pub open spec fn total_preorder<T>(le: spec_fn(T, T) -> bool) -> bool {
    &&& forall|a: T, b: T| #[trigger] le(a, b) || le(b, a)
    &&& forall|a: T, b: T, c: T| #[trigger] le(a, b) && #[trigger] le(b, c) ==> le(a, c)
}

/// No value stands before a smaller one.
pub open spec fn ascending<T>(values: Seq<T>, le: spec_fn(T, T) -> bool) -> bool {
    forall|i: int, j: int| 0 <= i < j < values.len() ==> le(#[trigger] values[i], #[trigger] values[j])
}

/// The values that `le` ranks as high as `pivot`, in the order in which they stand.
pub open spec fn peers<T>(values: Seq<T>, le: spec_fn(T, T) -> bool, pivot: T) -> Seq<T> {
    values.filter(|value: T| le(value, pivot) && le(pivot, value))
}

/// `after` is `before` sorted by `le`, with values of equal rank in their old order.
pub open spec fn stably_sorted<T>(
    before: Seq<T>,
    after: Seq<T>,
    le: spec_fn(T, T) -> bool,
) -> bool {
    &&& ascending(after, le)
    &&& forall|pivot: T| #[trigger] peers(after, le, pivot) == peers(before, le, pivot)
}

/// An executable comparison takes any two values.
pub open spec fn compares_all<T, F: Fn(&T, &T) -> bool>(compare: F) -> bool {
    forall|a: &T, b: &T| #[trigger] call_requires(compare, (a, b))
}

/// An executable comparison decides `le`, which is a total preorder.
pub open spec fn is_lawful<T, F: Fn(&T, &T) -> bool>(compare: F, le: spec_fn(T, T) -> bool) -> bool {
    &&& total_preorder(le)
    &&& forall|a: &T, b: &T, r: bool| #[trigger] call_ensures(compare, (a, b), r) ==> r == le(*a, *b)
}

/// A sequence is stably sorted in one way only: two ascending sequences with the same peers
/// are the same.
pub proof fn lemma_sorted_unique<T>(one: Seq<T>, other: Seq<T>, le: spec_fn(T, T) -> bool)
    requires
        total_preorder(le),
        ascending(one, le),
        ascending(other, le),
        forall|pivot: T| #[trigger] peers(one, le, pivot) == peers(other, le, pivot),
    ensures
        one == other,
    decreases one.len(),
{
    if one.len() == 0 || other.len() == 0 {
        if one.len() > 0 {
            lemma_peers_last(one, le, one.last());
            assert(peers(other, le, one.last()) =~= Seq::<T>::empty()) by {
                reveal(Seq::filter);
            }
        }
        if other.len() > 0 {
            lemma_peers_last(other, le, other.last());
            assert(peers(one, le, other.last()) =~= Seq::<T>::empty()) by {
                reveal(Seq::filter);
            }
        }
        assert(one =~= other);
    } else {
        let a = one.last();
        let b = other.last();
        lemma_peers_last(one, le, a);
        lemma_peers_last(other, le, b);
        assert(le(a, a) && le(b, b));
        assert(peers(other, le, a) == peers(one, le, a));
        assert(peers(one, le, b) == peers(other, le, b));
        lemma_peers_below_last(other, le, a);
        lemma_peers_below_last(one, le, b);
        lemma_peers_last(other, le, a);
        assert(peers(one, le, a).last() == a);
        assert(peers(other, le, a).last() == b);
        assert forall|pivot: T| #[trigger]
            peers(one.drop_last(), le, pivot) == peers(other.drop_last(), le, pivot) by {
            lemma_peers_last(one, le, pivot);
            lemma_peers_last(other, le, pivot);
            assert(peers(one, le, pivot) == peers(other, le, pivot));
            if le(a, pivot) && le(pivot, a) {
                assert(peers(one.drop_last(), le, pivot) =~= peers(one, le, pivot).drop_last());
                assert(peers(other.drop_last(), le, pivot) =~= peers(other, le, pivot).drop_last());
            }
        }
        lemma_sorted_unique(one.drop_last(), other.drop_last(), le);
        assert(one =~= one.drop_last().push(a));
        assert(other =~= other.drop_last().push(b));
    }
}

/// The last value joins the peers of those that rank as high.
proof fn lemma_peers_last<T>(values: Seq<T>, le: spec_fn(T, T) -> bool, pivot: T)
    requires
        values.len() > 0,
        total_preorder(le),
    ensures
        peers(values, le, pivot) == if le(values.last(), pivot) && le(pivot, values.last()) {
            peers(values.drop_last(), le, pivot).push(values.last())
        } else {
            peers(values.drop_last(), le, pivot)
        },
{
    values.drop_last().lemma_filter_push(
        values.last(),
        |value: T| le(value, pivot) && le(pivot, value),
    );
    assert(values.drop_last().push(values.last()) =~= values);
}

/// A value with a peer in an ascending sequence ranks no higher than its last value.
proof fn lemma_peers_below_last<T>(values: Seq<T>, le: spec_fn(T, T) -> bool, pivot: T)
    requires
        total_preorder(le),
        ascending(values, le),
        peers(values, le, pivot).len() > 0,
    ensures
        le(pivot, values.last()),
{
    let pred = |value: T| le(value, pivot) && le(pivot, value);
    if values.len() == 0 {
        reveal(Seq::filter);
    }
    if forall|i: int| 0 <= i < values.len() ==> !pred(#[trigger] values[i]) {
        values.lemma_all_neg_filter_empty(pred);
    }
    let i = choose|i: int| 0 <= i < values.len() && pred(#[trigger] values[i]);
    assert(le(pivot, values[i]));
    assert(i == values.len() - 1 || le(values[i], values.last()));
}

/// Filters commute.
pub proof fn lemma_filters_commute<T>(
    values: Seq<T>,
    one: spec_fn(T) -> bool,
    other: spec_fn(T) -> bool,
)
    ensures
        values.filter(one).filter(other) == values.filter(other).filter(one),
    decreases values.len(),
{
    if values.len() == 0 {
        reveal(Seq::filter);
    } else {
        let fewer = values.drop_last();
        let last = values.last();
        lemma_filters_commute(fewer, one, other);
        assert(values =~= fewer.push(last));
        fewer.lemma_filter_push(last, one);
        fewer.lemma_filter_push(last, other);
        fewer.filter(one).lemma_filter_push(last, other);
        fewer.filter(other).lemma_filter_push(last, one);
    }
}

/// Dropping values keeps the rest ascending.
pub proof fn lemma_filter_ascending<T>(
    values: Seq<T>,
    le: spec_fn(T, T) -> bool,
    keep: spec_fn(T) -> bool,
)
    requires
        ascending(values, le),
    ensures
        ascending(values.filter(keep), le),
        forall|i: int| 0 <= i < values.filter(keep).len() ==> values.contains(#[trigger] values.filter(keep)[i]),
    decreases values.len(),
{
    if values.len() == 0 {
        reveal(Seq::filter);
    } else {
        let fewer = values.drop_last();
        let last = values.last();
        lemma_filter_ascending(fewer, le, keep);
        assert(values =~= fewer.push(last));
        fewer.lemma_filter_push(last, keep);
        let kept = values.filter(keep);
        assert forall|i: int| 0 <= i < kept.len() implies values.contains(#[trigger] kept[i]) by {
            if i < fewer.filter(keep).len() {
                assert(fewer.contains(fewer.filter(keep)[i]));
                let j = choose|j: int| 0 <= j < fewer.len() && fewer[j] == fewer.filter(keep)[i];
                assert(values[j] == kept[i]);
            } else {
                assert(values[values.len() - 1] == kept[i]);
            }
        }
        assert forall|i: int, j: int| 0 <= i < j < kept.len() implies le(#[trigger] kept[i], #[trigger] kept[j]) by {
            if j == fewer.filter(keep).len() {
                assert(fewer.contains(fewer.filter(keep)[i]));
                let k = choose|k: int| 0 <= k < fewer.len() && fewer[k] == fewer.filter(keep)[i];
                assert(values[k] == kept[i]);
            } else {
                assert(fewer.filter(keep)[i] == kept[i] && fewer.filter(keep)[j] == kept[j]);
            }
        }
    }
}

/// Merges two ascending runs; values of the first go before their peers of the second. By a
/// comparison that is not lawful the values come out in some order.
fn merge<T, F: Fn(&T, &T) -> bool + Copy>(
    first: Vec<T>,
    second: Vec<T>,
    compare: F,
    Ghost(le): Ghost<spec_fn(T, T) -> bool>,
) -> (merged: Vec<T>)
    requires
        compares_all(compare),
        is_lawful(compare, le) ==> ascending(first@, le) && ascending(second@, le),
    ensures
        is_lawful(compare, le) ==> stably_sorted(first@ + second@, merged@, le),
        merged@.to_multiset() == (first@ + second@).to_multiset(),
{
    let mut left: Vec<T> = first;
    let mut right: Vec<T> = second;
    let mut backwards: Vec<T> = Vec::new();
    let ghost mut tail: Seq<T> = Seq::empty();
    let ghost lawful = is_lawful(compare, le);
    assert(first@ + second@ + tail =~= first@ + second@);
    while left.len() > 0 || right.len() > 0
        invariant
            compares_all(compare),
            lawful == is_lawful(compare, le),
            (left@ + right@ + tail).to_multiset() == (first@ + second@).to_multiset(),
            backwards@ == tail.reverse(),
            lawful ==> ascending(left@, le),
            lawful ==> ascending(right@, le),
            lawful ==> ascending(tail, le),
            lawful ==> forall|i: int, j: int|
                0 <= i < left@.len() && 0 <= j < tail.len() ==> le(
                    #[trigger] left@[i],
                    #[trigger] tail[j],
                ),
            lawful ==> forall|i: int, j: int|
                0 <= i < right@.len() && 0 <= j < tail.len() ==> le(
                    #[trigger] right@[i],
                    #[trigger] tail[j],
                ),
            lawful ==> forall|pivot: T| #[trigger]
                peers(first@ + second@, le, pivot) == peers(left@, le, pivot) + peers(
                    right@,
                    le,
                    pivot,
                ) + peers(tail, le, pivot),
        decreases left.len() + right.len(),
    {
        let from_right = if right.len() == 0 {
            false
        } else if left.len() == 0 {
            true
        } else {
            compare(&left[left.len() - 1], &right[right.len() - 1])
        };
        let ghost old_left = left@;
        let ghost old_right = right@;
        let ghost old_tail = tail;
        let value: T = if from_right {
            right.pop().unwrap()
        } else {
            left.pop().unwrap()
        };
        proof {
            tail = seq![value] + old_tail;
            assert(tail.reverse() =~= old_tail.reverse().push(value));
            if from_right {
                assert(left@ + right@ + tail =~= old_left + old_right + old_tail);
            } else {
                lemma_moved_past(left@, value, right@, old_tail);
                assert(old_left =~= left@.push(value));
            }
        }
        backwards.push(value);
        proof {
            if lawful {
                assert forall|pivot: T| #[trigger]
                    peers(first@ + second@, le, pivot) == peers(left@, le, pivot) + peers(
                        right@,
                        le,
                        pivot,
                    ) + peers(tail, le, pivot) by {
                    let pred = |x: T| le(x, pivot) && le(pivot, x);
                    Seq::filter_distributes_over_add(seq![value], old_tail, pred);
                    assert(Seq::<T>::empty().push(value) =~= seq![value]);
                    Seq::<T>::empty().lemma_filter_push(value, pred);
                    reveal(Seq::filter);
                    if from_right {
                        assert(old_right =~= right@.push(value));
                        right@.lemma_filter_push(value, pred);
                    } else {
                        assert(old_left =~= left@.push(value));
                        left@.lemma_filter_push(value, pred);
                        if pred(value) {
                            assert(right@.filter(pred) =~= Seq::<T>::empty()) by {
                                assert forall|i: int| 0 <= i < right@.len() implies !pred(right@[i]) by {
                                    assert(!le(value, right@.last()));
                                    if pred(right@[i]) {
                                        assert(le(value, pivot) && le(pivot, right@[i]));
                                        assert(le(right@[i], right@.last()) || i == right@.len() - 1);
                                    }
                                }
                                right@.lemma_all_neg_filter_empty(pred);
                            }
                        }
                    }
                    assert(peers(left@, le, pivot) + peers(right@, le, pivot) + peers(
                        tail,
                        le,
                        pivot,
                    ) =~= peers(old_left, le, pivot) + peers(old_right, le, pivot) + peers(
                        old_tail,
                        le,
                        pivot,
                    ));
                }
            }
        }
    }
    let mut merged: Vec<T> = Vec::new();
    while backwards.len() > 0
        invariant
            merged@ + backwards@.reverse() == tail,
        decreases backwards.len(),
    {
        let ghost before = backwards@;
        let value: T = backwards.pop().unwrap();
        assert(before.reverse() =~= seq![value] + backwards@.reverse());
        merged.push(value);
        assert(merged@ + backwards@.reverse() =~= tail);
    }
    proof {
        assert(merged@ =~= tail);
        assert(left@ + right@ + tail =~= tail);
        reveal(Seq::filter);
        if lawful {
            assert forall|pivot: T| #[trigger]
                peers(merged@, le, pivot) == peers(first@ + second@, le, pivot) by {
                assert(peers(left@, le, pivot) =~= Seq::<T>::empty());
                assert(peers(right@, le, pivot) =~= Seq::<T>::empty());
            }
        }
    }
    merged
}

/// Moving a value past others keeps the values.
proof fn lemma_moved_past<T>(left: Seq<T>, value: T, right: Seq<T>, tail: Seq<T>)
    ensures
        (left + right + (seq![value] + tail)).to_multiset() == (left.push(value) + right
            + tail).to_multiset(),
{
    let one = seq![value];
    assert(left.push(value) + right + tail =~= left + (one + right) + tail);
    assert(left + right + (one + tail) =~= left + (right + one) + tail);
    vstd::seq_lib::lemma_multiset_commutative(one, right);
    vstd::seq_lib::lemma_multiset_commutative(right, one);
    vstd::seq_lib::lemma_multiset_commutative(left, one + right);
    vstd::seq_lib::lemma_multiset_commutative(left, right + one);
    vstd::seq_lib::lemma_multiset_commutative(left + (one + right), tail);
    vstd::seq_lib::lemma_multiset_commutative(left + (right + one), tail);
    assert((one + right).to_multiset() =~= (right + one).to_multiset());
}

/// Sorts by merging, and keeps the order of values of equal rank. By a comparison that is
/// not lawful the values come out in some order.
pub(crate) fn merge_sort<T, F: Fn(&T, &T) -> bool + Copy>(
    values: Vec<T>,
    compare: F,
    Ghost(le): Ghost<spec_fn(T, T) -> bool>,
) -> (sorted: Vec<T>)
    requires
        compares_all(compare),
    ensures
        is_lawful(compare, le) ==> stably_sorted(values@, sorted@, le),
        sorted@.to_multiset() == values@.to_multiset(),
    decreases values.len(),
{
    if values.len() <= 1 {
        return values;
    }
    let mut head: Vec<T> = values;
    let half: usize = head.len() / 2;
    let rest: Vec<T> = head.split_off(half);
    assert(head@ + rest@ =~= values@);
    let ghost head_before = head@;
    let ghost rest_before = rest@;
    let first: Vec<T> = merge_sort(head, compare, Ghost(le));
    let second: Vec<T> = merge_sort(rest, compare, Ghost(le));
    let sorted: Vec<T> = merge(first, second, compare, Ghost(le));
    proof {
        vstd::seq_lib::lemma_multiset_commutative(first@, second@);
        vstd::seq_lib::lemma_multiset_commutative(head_before, rest_before);
        if is_lawful(compare, le) {
            assert forall|pivot: T| #[trigger]
                peers(sorted@, le, pivot) == peers(values@, le, pivot) by {
                let pred = |x: T| le(x, pivot) && le(pivot, x);
                Seq::filter_distributes_over_add(head_before, rest_before, pred);
                Seq::filter_distributes_over_add(first@, second@, pred);
                assert(peers(first@, le, pivot) == peers(head_before, le, pivot));
                assert(peers(second@, le, pivot) == peers(rest_before, le, pivot));
                assert(peers(first@ + second@, le, pivot) == peers(sorted@, le, pivot));
            }
        }
    }
    sorted
}

/// Sorting puts the same values in order: none stands before a smaller one.
pub proof fn law_stably_sorted<T>(before: Seq<T>, after: Seq<T>, le: spec_fn(T, T) -> bool)
    requires
        forall|a: T, b: T| #[trigger] le(a, b) || le(b, a),
        forall|a: T, b: T, c: T| #[trigger] le(a, b) && #[trigger] le(b, c) ==> le(a, c),
        stably_sorted(before, after, le),
    ensures
        after.to_multiset() == before.to_multiset(),
        after.len() == before.len(),
        forall|i: int, j: int|
            0 <= i < j < after.len() ==> le(#[trigger] after[i], #[trigger] after[j]),
{
    assert(total_preorder(le));
    assert forall|value: T| after.to_multiset().count(value) == before.to_multiset().count(value) by {
        assert(le(value, value));
        assert(peers(after, le, value) == peers(before, le, value));
        let peer = |other: T| le(other, value) && le(value, other);
        lemma_filter_count(after, peer, value);
        lemma_filter_count(before, peer, value);
    }
    assert(after.to_multiset() =~= before.to_multiset());
    after.to_multiset_ensures();
    before.to_multiset_ensures();
}

/// Sorting leaves the values of one rank as they stood before, one after the other.
pub proof fn law_ties_keep_order<T>(
    before: Seq<T>,
    after: Seq<T>,
    le: spec_fn(T, T) -> bool,
    pivot: T,
    ties: spec_fn(T) -> bool,
)
    requires
        stably_sorted(before, after, le),
        forall|value: T| #[trigger] ties(value) <==> le(value, pivot) && le(pivot, value),
    ensures
        after.filter(ties) == before.filter(ties),
{
    let peer = |value: T| le(value, pivot) && le(pivot, value);
    assert(peers(after, le, pivot) == peers(before, le, pivot));
    assert(ties =~= peer);
}

/// A filter keeps every occurrence of a value that it picks.
proof fn lemma_filter_count<T>(values: Seq<T>, keep: spec_fn(T) -> bool, value: T)
    requires
        keep(value),
    ensures
        values.filter(keep).to_multiset().count(value) == values.to_multiset().count(value),
    decreases values.len(),
{
    if values.len() == 0 {
        reveal(Seq::filter);
    } else {
        let fewer = values.drop_last();
        let last = values.last();
        lemma_filter_count(fewer, keep, value);
        assert(values =~= fewer.push(last));
        fewer.lemma_filter_push(last, keep);
        fewer.to_multiset_ensures();
        fewer.filter(keep).to_multiset_ensures();
    }
}

} // verus!
