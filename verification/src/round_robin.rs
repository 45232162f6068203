//! Partitioning by turns.

use crate::partitioner::Partitioner;
use vstd::prelude::*;

verus! {

/// Round-robin partitioner that cycles through partitions sequentially.
#[derive(Debug, Clone)]
pub struct RoundRobinPartitioner {
    counter: usize,
}

impl View for RoundRobinPartitioner {
    type V = nat;

    /// The number of keys assigned so far.
    closed spec fn view(&self) -> nat {
        self.counter as nat
    }
}

impl RoundRobinPartitioner {
    /// Creates a partitioner that starts with partition zero.
    pub fn new() -> (partitioner: Self)
        ensures
            partitioner@ == 0,
    {
        RoundRobinPartitioner { counter: 0 }
    }
}

impl Default for RoundRobinPartitioner {
    fn default() -> (partitioner: Self)
        ensures
            partitioner@ == 0,
    {
        RoundRobinPartitioner::new()
    }
}

impl<K> Partitioner<K> for RoundRobinPartitioner {
    open spec fn accepts(&self, key: &K, num_partitions: usize) -> bool {
        num_partitions > 0 && self@ < usize::MAX
    }

    open spec fn assigns(&self, key: &K, num_partitions: usize, target: usize, after: &Self) -> bool {
        target == self@ % num_partitions as nat && after@ == self@ + 1
    }

    fn partition(&mut self, _key: &K, num_partitions: usize) -> (target: usize) {
        let current: usize = self.counter;
        self.counter = current + 1;
        current % num_partitions
    }
}

/// Every key goes to the same partition as the key `num_partitions` calls before.
pub proof fn law_every_nth<K>(
    earlier: RoundRobinPartitioner,
    later: RoundRobinPartitioner,
    num_partitions: usize,
    earlier_key: &K,
    later_key: &K,
    earlier_target: usize,
    later_target: usize,
    after_earlier: &RoundRobinPartitioner,
    after_later: &RoundRobinPartitioner,
)
    requires
        num_partitions > 0,
        later@ == earlier@ + num_partitions,
        earlier.assigns(earlier_key, num_partitions, earlier_target, after_earlier),
        later.assigns(later_key, num_partitions, later_target, after_later),
    ensures
        later_target == earlier_target,
{
    vstd::arithmetic::div_mod::lemma_mod_add_multiples_vanish(
        earlier@ as int,
        num_partitions as int,
    );
}

/// How many of `calls` calls, from the one with number `first` on, go to `target`.
pub open spec fn turns(first: nat, num_partitions: nat, calls: nat, target: nat) -> nat
    decreases calls,
{
    if calls == 0 {
        0
    } else {
        let earlier = turns(first, num_partitions, (calls - 1) as nat, target);
        if (first + calls - 1) % num_partitions as int == target {
            earlier + 1
        } else {
            earlier
        }
    }
}

/// Every partition gets its share of consecutive keys: their number over that of the
/// partitions, rounded down or up. Where the number of keys is a multiple of that of the
/// partitions, all shares are equal.
pub proof fn law_equal_shares(first: nat, num_partitions: nat, calls: nat, target: nat)
    requires
        target < num_partitions,
    ensures
        calls / num_partitions <= turns(first, num_partitions, calls, target) <= calls
            / num_partitions + 1,
        calls % num_partitions == 0 ==> turns(first, num_partitions, calls, target) == calls
            / num_partitions,
{
    let n = num_partitions as int;
    let base = first + n - 1 - target;
    let share = turns(first, num_partitions, calls, target) as int;
    lemma_turns(first, num_partitions, calls, target);
    let q = base / n;
    let r = base % n;
    let p = calls as int / n;
    let s = calls as int % n;
    vstd::arithmetic::div_mod::lemma_fundamental_div_mod(base, n);
    vstd::arithmetic::div_mod::lemma_fundamental_div_mod(calls as int, n);
    assert((q + p) * n == n * q + n * p) by (nonlinear_arith);
    assert((q + p + 1) * n == n * q + n * p + n) by (nonlinear_arith);
    if r + s < n {
        vstd::arithmetic::div_mod::lemma_fundamental_div_mod_converse(
            base + calls,
            n,
            q + p,
            r + s,
        );
    } else {
        vstd::arithmetic::div_mod::lemma_fundamental_div_mod_converse(
            base + calls,
            n,
            q + p + 1,
            r + s - n,
        );
    }
}

/// The calls that go to `target` are every `num_partitions`th.
proof fn lemma_turns(first: nat, num_partitions: nat, calls: nat, target: nat)
    requires
        target < num_partitions,
    ensures
        turns(first, num_partitions, calls, target) == (first + num_partitions - 1 - target + calls)
            / num_partitions as int - (first + num_partitions - 1 - target) / num_partitions as int,
    decreases calls,
{
    if calls > 0 {
        lemma_turns(first, num_partitions, (calls - 1) as nat, target);
        let n = num_partitions as int;
        let number = first + calls - 1;
        let before = number + n - 1 - target;
        let q = number / n;
        let r = number % n;
        vstd::arithmetic::div_mod::lemma_fundamental_div_mod(number, n);
        assert(q * n == n * q && (q + 1) * n == n * q + n) by (nonlinear_arith);
        if r == target {
            vstd::arithmetic::div_mod::lemma_fundamental_div_mod_converse(before, n, q, n - 1);
            vstd::arithmetic::div_mod::lemma_fundamental_div_mod_converse(before + 1, n, q + 1, 0);
        } else if r < target {
            let rest = n - 1 - target + r;
            vstd::arithmetic::div_mod::lemma_fundamental_div_mod_converse(before, n, q, rest);
            vstd::arithmetic::div_mod::lemma_fundamental_div_mod_converse(
                before + 1,
                n,
                q,
                rest + 1,
            );
        } else {
            let rest = r - target - 1;
            vstd::arithmetic::div_mod::lemma_fundamental_div_mod_converse(before, n, q + 1, rest);
            vstd::arithmetic::div_mod::lemma_fundamental_div_mod_converse(
                before + 1,
                n,
                q + 1,
                rest + 1,
            );
        }
    }
}

/// A partitioner accepts every key where there are partitions and it can still count. With as
/// many calls before, the target is one of the partitions, the number of those calls is a
/// multiple of the number of partitions and the number of the target, and one call more is
/// counted.
pub proof fn law_turn<K>(
    before: RoundRobinPartitioner,
    key: &K,
    num_partitions: usize,
    target: usize,
    after: &RoundRobinPartitioner,
)
    requires
        num_partitions > 0,
    ensures
        before@ < usize::MAX ==> before.accepts(key, num_partitions),
        before.assigns(key, num_partitions, target, after) ==> {
            &&& target < num_partitions
            &&& exists|rounds: nat| #[trigger] (rounds * num_partitions) + target == before@
            &&& after@ == before@ + 1
        },
{
    if before.assigns(key, num_partitions, target, after) {
        let n = num_partitions as int;
        let rounds = (before@ as int / n) as nat;
        vstd::arithmetic::div_mod::lemma_fundamental_div_mod(before@ as int, n);
        vstd::arithmetic::div_mod::lemma_mod_pos_bound(before@ as int, n);
        vstd::arithmetic::div_mod::lemma_div_pos_is_pos(before@ as int, n);
        assert(rounds * num_partitions == n * (before@ as int / n)) by (nonlinear_arith)
            requires
                rounds == before@ as int / n,
                n == num_partitions,
        ;
        assert((rounds * num_partitions) + target == before@);
    }
}

/// A row of calls: each key goes to its target, and leaves the partitioner in the next state.
pub open spec fn is_run<K>(
    states: Seq<RoundRobinPartitioner>,
    keys: Seq<K>,
    num_partitions: usize,
    targets: Seq<usize>,
) -> bool {
    &&& keys.len() == targets.len()
    &&& states.len() == targets.len() + 1
    &&& forall|i: int|
        0 <= i < targets.len() ==> #[trigger] states[i].assigns(
            &keys[i],
            num_partitions,
            targets[i],
            &states[i + 1],
        )
}

/// The state before a call of a run has counted the calls before.
proof fn lemma_run_counts<K>(
    states: Seq<RoundRobinPartitioner>,
    keys: Seq<K>,
    num_partitions: usize,
    targets: Seq<usize>,
    call: int,
)
    requires
        num_partitions > 0,
        is_run(states, keys, num_partitions, targets),
        0 <= call <= targets.len(),
    ensures
        states[call]@ == states[0]@ + call,
    decreases call,
{
    if call > 0 {
        lemma_run_counts(states, keys, num_partitions, targets, call - 1);
        assert(states[call - 1].assigns(
            &keys[call - 1],
            num_partitions,
            targets[call - 1],
            &states[call - 1 + 1],
        ));
        law_turn(
            states[call - 1],
            &keys[call - 1],
            num_partitions,
            targets[call - 1],
            &states[call],
        );
    }
}

/// The calls of a run cycle through the partitions in order: the target of a call is followed
/// by the next partition, and the last one by the first. A new partitioner starts with the
/// first one.
pub proof fn law_cycles_in_order<K>(
    states: Seq<RoundRobinPartitioner>,
    keys: Seq<K>,
    num_partitions: usize,
    targets: Seq<usize>,
    call: int,
)
    requires
        num_partitions > 0,
        is_run(states, keys, num_partitions, targets),
        0 <= call < targets.len(),
    ensures
        call == 0 && states[0]@ == 0 ==> targets[call] == 0,
        call > 0 && targets[call - 1] + 1 < num_partitions ==> targets[call] == targets[call - 1]
            + 1,
        call > 0 && targets[call - 1] + 1 == num_partitions ==> targets[call] == 0,
        targets[call] < num_partitions,
{
    let n = num_partitions as int;
    lemma_run_counts(states, keys, num_partitions, targets, call);
    lemma_run_target(states, keys, num_partitions, targets, call);
    let now = states[0]@ + call;
    if call == 0 && states[0]@ == 0 {
        vstd::arithmetic::div_mod::lemma_small_mod(0, num_partitions as nat);
    }
    if call > 0 {
        lemma_run_target(states, keys, num_partitions, targets, call - 1);
        let last = now - 1;
        let q = last / n;
        vstd::arithmetic::div_mod::lemma_fundamental_div_mod(last, n);
        assert(q * n == n * q && (q + 1) * n == n * q + n) by (nonlinear_arith);
        if last % n + 1 < n {
            vstd::arithmetic::div_mod::lemma_fundamental_div_mod_converse(
                now,
                n,
                q,
                last % n + 1,
            );
        } else {
            vstd::arithmetic::div_mod::lemma_fundamental_div_mod_converse(now, n, q + 1, 0);
        }
    }
}

/// The target of a call of a run is the remainder of the number of calls before.
proof fn lemma_run_target<K>(
    states: Seq<RoundRobinPartitioner>,
    keys: Seq<K>,
    num_partitions: usize,
    targets: Seq<usize>,
    call: int,
)
    requires
        num_partitions > 0,
        is_run(states, keys, num_partitions, targets),
        0 <= call < targets.len(),
    ensures
        targets[call] == (states[0]@ + call) % num_partitions as int,
        targets[call] < num_partitions,
{
    let n = num_partitions as int;
    lemma_run_counts(states, keys, num_partitions, targets, call);
    assert(states[call].assigns(&keys[call], num_partitions, targets[call], &states[call + 1]));
    law_turn(states[call], &keys[call], num_partitions, targets[call], &states[call + 1]);
    let rounds = choose|rounds: nat| #[trigger]
        (rounds * num_partitions) + targets[call] == states[call]@;
    vstd::arithmetic::div_mod::lemma_fundamental_div_mod_converse(
        states[call]@ as int,
        n,
        rounds as int,
        targets[call] as int,
    );
}

/// As many consecutive calls as there are partitions, or fewer, go to different partitions.
pub proof fn law_no_repeat_within_round<K>(
    states: Seq<RoundRobinPartitioner>,
    keys: Seq<K>,
    num_partitions: usize,
    targets: Seq<usize>,
    one: int,
    other: int,
)
    requires
        num_partitions > 0,
        is_run(states, keys, num_partitions, targets),
        0 <= one < other < targets.len(),
        other - one < num_partitions,
    ensures
        targets[one] != targets[other],
{
    let n = num_partitions as int;
    lemma_run_target(states, keys, num_partitions, targets, one);
    lemma_run_target(states, keys, num_partitions, targets, other);
    let a = states[0]@ + one;
    let b = states[0]@ + other;
    vstd::arithmetic::div_mod::lemma_fundamental_div_mod(a, n);
    vstd::arithmetic::div_mod::lemma_fundamental_div_mod(b, n);
    if targets[one] == targets[other] {
        let q = b / n - a / n;
        assert(n * (b / n) - n * (a / n) == n * q) by (nonlinear_arith)
            requires
                q == b / n - a / n,
        ;
        assert(false) by (nonlinear_arith)
            requires
                0 < n * q < n,
        ;
    }
}

/// Over any run of calls every partition gets its share of the keys: their number over that
/// of the partitions, rounded down or up. Where the number of keys is a multiple of that of
/// the partitions, all shares are equal.
pub proof fn law_run_shares_equally<K>(
    states: Seq<RoundRobinPartitioner>,
    keys: Seq<K>,
    num_partitions: usize,
    targets: Seq<usize>,
    partition: usize,
)
    requires
        partition < num_partitions,
        is_run(states, keys, num_partitions, targets),
    ensures
        ({
            let share = targets.to_multiset().count(partition);
            &&& targets.len() / num_partitions as nat <= share <= targets.len()
                / num_partitions as nat + 1
            &&& targets.len() % num_partitions as nat == 0 ==> share == targets.len()
                / num_partitions as nat
        }),
{
    lemma_run_turns(states, keys, num_partitions, targets, partition, targets.len() as int);
    assert(targets.take(targets.len() as int) =~= targets);
    law_equal_shares(states[0]@, num_partitions as nat, targets.len(), partition as nat);
}

/// The calls of a run that go to a partition are its turns.
proof fn lemma_run_turns<K>(
    states: Seq<RoundRobinPartitioner>,
    keys: Seq<K>,
    num_partitions: usize,
    targets: Seq<usize>,
    partition: usize,
    calls: int,
)
    requires
        partition < num_partitions,
        is_run(states, keys, num_partitions, targets),
        0 <= calls <= targets.len(),
    ensures
        targets.take(calls).to_multiset().count(partition) == turns(
            states[0]@,
            num_partitions as nat,
            calls as nat,
            partition as nat,
        ),
    decreases calls,
{
    let some = targets.take(calls);
    some.to_multiset_ensures();
    if calls > 0 {
        let fewer = targets.take(calls - 1);
        lemma_run_turns(states, keys, num_partitions, targets, partition, calls - 1);
        lemma_run_target(states, keys, num_partitions, targets, calls - 1);
        fewer.to_multiset_ensures();
        assert(some =~= fewer.push(targets[calls - 1]));
    } else {
        assert(some =~= Seq::<usize>::empty());
    }
}

} // verus!
