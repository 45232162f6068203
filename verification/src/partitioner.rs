//! Strategies for assigning keys to partitions, and the one that hashes.

use crate::digest;
use std::hash::Hash;
use vstd::prelude::*;

verus! {

/// Strategy for assigning keys to GPU partitions.
///
/// A strategy may change as it assigns keys, as one that takes turns does.
pub trait Partitioner<K> {
    /// Whether the strategy can assign `key` to one of `num_partitions` partitions now.
    spec fn accepts(&self, key: &K, num_partitions: usize) -> bool;

    /// Whether the strategy may assign `key` to `target` and be `after` from then on.
    spec fn assigns(&self, key: &K, num_partitions: usize, target: usize, after: &Self) -> bool;

    /// Determines the target partition for `key`.
    fn partition(&mut self, key: &K, num_partitions: usize) -> (target: usize)
        requires
            old(self).accepts(key, num_partitions),
        ensures
            old(self).assigns(key, num_partitions, target, final(self)),
    ;
}

/// Hash-based partitioner using `std::collections::hash_map::DefaultHasher`.
#[derive(Debug, Clone)]
pub struct HashPartitioner;

/// The partition that a digest falls to.
pub open spec fn slot(digest: u64, num_partitions: usize) -> usize {
    (digest as usize) % num_partitions
}

impl HashPartitioner {
    /// Finds the partition that a digest falls to.
    pub fn slot_of(digest: u64, num_partitions: usize) -> (target: usize)
        requires
            num_partitions > 0,
        ensures
            target == slot(digest, num_partitions),
            target < num_partitions,
    {
        (digest as usize) % num_partitions
    }

    /// Determines the target partition for `key`: where a digest of it falls to.
    pub fn partition<K: Hash>(&self, key: &K, num_partitions: usize) -> (target: usize)
        requires
            num_partitions > 0,
        ensures
            exists|digest: u64| #[trigger]
                digest::digests_to(key, digest) && target == slot(digest, num_partitions),
            target < num_partitions,
    {
        let digest: u64 = digest::digest_of_key(key);
        HashPartitioner::slot_of(digest, num_partitions)
    }
}

impl Default for HashPartitioner {
    fn default() -> (partitioner: Self)
        ensures
            partitioner == HashPartitioner,
    {
        HashPartitioner
    }
}

impl<K: Hash> Partitioner<K> for HashPartitioner {
    open spec fn accepts(&self, key: &K, num_partitions: usize) -> bool {
        num_partitions > 0
    }

    open spec fn assigns(&self, key: &K, num_partitions: usize, target: usize, after: &Self) -> bool {
        &&& exists|digest: u64| #[trigger]
            digest::digests_to(key, digest) && target == slot(digest, num_partitions)
        &&& target < num_partitions
    }

    fn partition(&mut self, key: &K, num_partitions: usize) -> (target: usize) {
        HashPartitioner::partition(&*self, key, num_partitions)
    }
}

/// A key whose hashing is consistent always goes to the same one of as many partitions.
pub proof fn law_same_key_same_slot<K: Hash>(
    key: &K,
    num_partitions: usize,
    one: u64,
    other: u64,
)
    requires
        digest::digests_consistently(key),
        digest::digests_to(key, one),
        digest::digests_to(key, other),
    ensures
        slot(one, num_partitions) == slot(other, num_partitions),
{
}

/// The target of a digest among some partitions is one of them, and the digest is a multiple
/// of their number and the number of the target.
pub proof fn law_slot_is_remainder(digest: u64, num_partitions: usize)
    requires
        num_partitions > 0,
    ensures
        slot(digest, num_partitions) < num_partitions,
        exists|times: nat| #[trigger]
            (times * num_partitions) + slot(digest, num_partitions) == digest as usize,
{
    let value = digest as usize;
    let times = (value / num_partitions) as nat;
    vstd::arithmetic::div_mod::lemma_fundamental_div_mod(value as int, num_partitions as int);
    assert(times * num_partitions == num_partitions * times) by (nonlinear_arith);
    assert((times * num_partitions) + slot(digest, num_partitions) == value);
}

/// Every partition is the target of the digest with its number.
pub proof fn law_every_slot_is_hit(partition: usize, num_partitions: usize)
    requires
        partition < num_partitions,
    ensures
        slot(partition as u64, num_partitions) == partition,
{
    vstd::arithmetic::div_mod::lemma_small_mod(partition as nat, num_partitions as nat);
}

/// Digests that are as many apart as there are partitions have the same target.
pub proof fn law_slots_repeat(digest: u64, num_partitions: usize)
    requires
        num_partitions > 0,
        digest + num_partitions <= usize::MAX,
    ensures
        slot((digest + num_partitions) as u64, num_partitions) == slot(digest, num_partitions),
{
    vstd::arithmetic::div_mod::lemma_mod_add_multiples_vanish(
        digest as int,
        num_partitions as int,
    );
}

/// Neighbouring digests have neighbouring targets, and the last target is followed by the
/// first.
pub proof fn law_slots_follow(digest: u64, num_partitions: usize)
    requires
        num_partitions > 0,
        digest < usize::MAX,
    ensures
        ({
            let here = slot(digest, num_partitions);
            let next = slot((digest + 1) as u64, num_partitions);
            if here + 1 < num_partitions {
                next == here + 1
            } else {
                next == 0
            }
        }),
{
    let n = num_partitions as int;
    let times = digest as int / n;
    let here = digest as int % n;
    vstd::arithmetic::div_mod::lemma_fundamental_div_mod(digest as int, n);
    assert(times * n == n * times && (times + 1) * n == n * times + n) by (nonlinear_arith);
    if here + 1 < n {
        vstd::arithmetic::div_mod::lemma_fundamental_div_mod_converse(
            digest + 1,
            n,
            times,
            here + 1,
        );
    } else {
        vstd::arithmetic::div_mod::lemma_fundamental_div_mod_converse(digest + 1, n, times + 1, 0);
    }
}

/// The hash strategy accepts every key where there are partitions at all. Its target is one
/// of them, and the remainder of an outcome of hashing the key.
pub proof fn law_hash_assigns<K: Hash>(
    strategy: HashPartitioner,
    key: &K,
    num_partitions: usize,
    target: usize,
    after: &HashPartitioner,
)
    requires
        num_partitions > 0,
    ensures
        strategy.accepts(key, num_partitions),
        strategy.assigns(key, num_partitions, target, after) ==> target < num_partitions
            && exists|digest: u64, times: nat|
            digest::digests_to(key, digest) && #[trigger] (times * num_partitions) + target
                == #[trigger] (digest as usize),
{
    if strategy.assigns(key, num_partitions, target, after) {
        let digest = choose|digest: u64| #[trigger]
            digest::digests_to(key, digest) && target == slot(digest, num_partitions);
        law_slot_is_remainder(digest, num_partitions);
        let times = choose|times: nat| #[trigger]
            (times * num_partitions) + slot(digest, num_partitions) == digest as usize;
        assert((times * num_partitions) + target == digest as usize);
    }
}

} // verus!
