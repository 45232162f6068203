use oxide_partition::digest::{digest_of_key, digest_of_text};
use oxide_partition::label::name_vnode;
use oxide_partition::{
    ConsistentHashRing, HashPartitioner, Partitioner, RangePartitioner, RoundRobinPartitioner,
};
use std::collections::hash_map::DefaultHasher;
use std::hash::{Hash, Hasher};

fn std_hash<K: Hash>(key: &K) -> u64 {
    let mut hasher = DefaultHasher::new();
    key.hash(&mut hasher);
    hasher.finish()
}

fn std_ring(nodes: &[usize], vnodes: usize) -> Vec<(u64, usize)> {
    let mut ring: Vec<(u64, usize)> = Vec::new();
    for node in nodes {
        for vnode in 0..vnodes {
            ring.push((std_hash(&format!("node-{}-vn-{}", node, vnode)), *node));
        }
    }
    ring.sort_by_key(|(position, _)| *position);
    ring
}

fn std_owner(ring: &[(u64, usize)], position: u64) -> usize {
    for (place, node) in ring {
        if *place >= position {
            return *node;
        }
    }
    ring[0].1
}

#[test]
fn test_hash_partitioner_distribution() {
    let p = HashPartitioner;
    let num = 8;
    let mut counts = vec![0usize; num];
    for i in 0..1000u64 {
        counts[p.partition(&i, num)] += 1;
    }
    // Each bucket should have something
    for (i, &c) in counts.iter().enumerate() {
        assert!(c > 0, "bucket {} has 0 items", i);
    }
}

#[test]
fn test_range_partitioner() {
    let rp = RangePartitioner::new(vec![25u32, 50, 75]);
    assert_eq!(rp.partition(&10u32, 4), 0);
    assert_eq!(rp.partition(&30u32, 4), 1);
    assert_eq!(rp.partition(&60u32, 4), 2);
    assert_eq!(rp.partition(&80u32, 4), 3);
}

#[test]
fn test_round_robin() {
    let mut rr = RoundRobinPartitioner::new();
    let num = 3;
    assert_eq!(rr.partition(&"a", num), 0);
    assert_eq!(rr.partition(&"b", num), 1);
    assert_eq!(rr.partition(&"c", num), 2);
    assert_eq!(rr.partition(&"d", num), 0);
}

#[test]
fn test_consistent_hash_ring_stability() {
    let ring = ConsistentHashRing::new(&[0, 1, 2], 100);
    // Same key should always map to same node
    let a = ring.partition(&42u64, 3);
    let b = ring.partition(&42u64, 3);
    assert_eq!(a, b);
}

#[test]
fn test_consistent_hash_ring_add_remove() {
    let mut ring = ConsistentHashRing::new(&[0, 1, 2], 150);
    let before: Vec<usize> = (0..100u64).map(|k| ring.partition(&k, 3)).collect();
    ring.add_node(3);
    // Most keys should stay on the same node
    let after: Vec<usize> = (0..100u64).map(|k| ring.partition(&k, 4)).collect();
    let unchanged = before.iter().zip(after.iter()).filter(|(a, b)| a == b).count();
    assert!(unchanged > 60, "expected >60% stability, got {}%", unchanged);
    // Remove node 3 should restore
    ring.remove_node(3);
    let restored: Vec<usize> = (0..100u64).map(|k| ring.partition(&k, 3)).collect();
    assert_eq!(before, restored);
}

#[test]
fn hash_partitions_follow_the_default_hasher() {
    let p = HashPartitioner::default();
    for i in 0..200u64 {
        assert_eq!(p.partition(&i, 7), (std_hash(&i) as usize) % 7);
    }
    assert_eq!(p.partition(&"tensor", 5), (std_hash(&"tensor") as usize) % 5);
    assert_eq!(p.partition(&"tensor", 5), p.partition(&"tensor", 5));
    assert_eq!(p.partition(&"tensor", 1), 0);
}

#[test]
fn slots_are_remainders() {
    assert_eq!(HashPartitioner::slot_of(0, 3), 0);
    assert_eq!(HashPartitioner::slot_of(10, 4), 2);
    assert_eq!(HashPartitioner::slot_of(11, 4), 3);
}

#[test]
fn digests_follow_the_default_hasher() {
    assert_eq!(digest_of_key(&(3u8, 'x')), std_hash(&(3u8, 'x')));
    let text = "node-1-vn-2".to_string();
    assert_eq!(digest_of_text(&text), std_hash(&text));
}

#[test]
fn strategies_work_through_the_trait() {
    fn route<P: Partitioner<u32>>(strategy: &mut P, keys: &[u32], parts: usize) -> Vec<usize> {
        keys.iter().map(|key| strategy.partition(key, parts)).collect()
    }
    let keys = [5u32, 30, 5];
    let mut range = RangePartitioner::new(vec![10u32, 20]);
    assert_eq!(route(&mut range, &keys, 3), vec![0, 2, 0]);
    let mut turns = RoundRobinPartitioner::default();
    assert_eq!(route(&mut turns, &keys, 2), vec![0, 1, 0]);
    let mut hash = HashPartitioner;
    let direct: Vec<usize> = keys.iter().map(|key| hash.partition(key, 4)).collect();
    assert_eq!(route(&mut hash, &keys, 4), direct);
}

#[test]
fn range_boundaries_start_ranges() {
    let rp = RangePartitioner::new(vec![25u32, 50, 75]);
    assert_eq!(rp.partition(&0u32, 4), 0);
    assert_eq!(rp.partition(&24u32, 4), 0);
    assert_eq!(rp.partition(&25u32, 4), 1);
    assert_eq!(rp.partition(&42u32, 4), 1);
    assert_eq!(rp.partition(&49u32, 4), 1);
    assert_eq!(rp.partition(&50u32, 4), 2);
    assert_eq!(rp.partition(&75u32, 4), 3);
    assert_eq!(rp.partition(&u32::MAX, 4), 3);
    assert_eq!(rp.num_partitions(), 4);
}

#[test]
fn range_boundaries_are_sorted() {
    let rp = RangePartitioner::new(vec![75, 25, 50, 25, -3]);
    assert_eq!(rp.num_partitions(), 6);
    assert_eq!(rp.partition(&-4, 0), 0);
    assert_eq!(rp.partition(&0, 0), 1);
    assert_eq!(rp.partition(&25, 0), 3);
    assert_eq!(rp.partition(&60, 0), 4);
    assert_eq!(rp.partition(&99, 0), 5);
}

#[test]
fn range_without_boundaries() {
    let rp = RangePartitioner::<String>::new(vec![]);
    assert_eq!(rp.num_partitions(), 1);
    assert_eq!(rp.partition(&"any".to_string(), 9), 0);
}

#[test]
fn range_keeps_the_order_of_keys() {
    let rp = RangePartitioner::new((0..50u64).map(|i| (i * 37) % 101).collect());
    let targets: Vec<usize> = (0..110u64).map(|key| rp.partition(&key, 51)).collect();
    for pair in targets.windows(2) {
        assert!(pair[0] <= pair[1]);
    }
    assert_eq!(targets[109], 50);
}

#[test]
fn round_robin_shares_equally() {
    let mut rr = RoundRobinPartitioner::new();
    let mut counts = vec![0usize; 4];
    for key in 0..22u64 {
        counts[rr.partition(&key, 4)] += 1;
    }
    assert_eq!(counts, vec![6, 6, 5, 5]);
}

#[test]
fn round_robin_counts_over_changing_numbers() {
    let mut rr = RoundRobinPartitioner::new();
    assert_eq!(rr.partition(&(), 2), 0);
    assert_eq!(rr.partition(&(), 2), 1);
    assert_eq!(rr.partition(&(), 5), 2);
    assert_eq!(rr.partition(&(), 3), 0);
}

#[test]
fn vnode_names() {
    assert_eq!(name_vnode(0, 0), "node-0-vn-0");
    assert_eq!(name_vnode(12, 305), "node-12-vn-305");
    assert_eq!(name_vnode(usize::MAX, 90), format!("node-{}-vn-90", usize::MAX));
}

#[test]
fn ring_assigns_clockwise() {
    let nodes = [4usize, 7, 9];
    let ring = ConsistentHashRing::new(&nodes, 20);
    let expected = std_ring(&nodes, 20);
    for key in 0..500u64 {
        assert_eq!(ring.partition(&key, 3), std_owner(&expected, std_hash(&key)));
    }
    for (position, node) in &expected {
        assert_eq!(ring.node_at(*position), *node);
    }
    assert_eq!(ring.node_at(0), expected[0].1);
    assert_eq!(ring.node_at(u64::MAX), expected[0].1);
    assert_eq!(ring.node_at(expected[0].0 + 1), expected[1].1);
}

#[test]
fn empty_rings_assign_node_zero() {
    let none = ConsistentHashRing::new(&[], 10);
    assert_eq!(none.partition(&1u8, 3), 0);
    assert_eq!(none.node_at(77), 0);
    assert_eq!(none.node_count(), 0);
    let flat = ConsistentHashRing::new(&[5, 6], 0);
    assert_eq!(flat.partition(&1u8, 3), 0);
    assert_eq!(flat.node_count(), 0);
}

#[test]
fn ring_counts_nodes() {
    let mut ring = ConsistentHashRing::new(&[1, 2, 2, 8], 5);
    assert_eq!(ring.node_count(), 3);
    ring.add_node(9);
    assert_eq!(ring.node_count(), 4);
    ring.add_node(9);
    assert_eq!(ring.node_count(), 4);
    ring.remove_node(9);
    assert_eq!(ring.node_count(), 3);
    ring.remove_node(77);
    assert_eq!(ring.node_count(), 3);
}

#[test]
fn joining_node_takes_keys_only_for_itself() {
    let mut ring = ConsistentHashRing::new(&[0, 1, 2], 30);
    let before: Vec<usize> = (0..300u64).map(|k| ring.partition(&k, 3)).collect();
    ring.add_node(3);
    for key in 0..300u64 {
        let now = ring.partition(&key, 4);
        assert!(now == 3 || now == before[key as usize]);
    }
}

#[test]
fn leaving_node_moves_its_own_keys_only() {
    let mut ring = ConsistentHashRing::new(&[0, 1, 2], 30);
    let before: Vec<usize> = (0..300u64).map(|k| ring.partition(&k, 3)).collect();
    ring.remove_node(1);
    let rest = std_ring(&[0, 2], 30);
    for key in 0..300u64 {
        let now = ring.partition(&key, 2);
        assert!(now != 1);
        assert_eq!(now, std_owner(&rest, std_hash(&key)));
        if before[key as usize] != 1 {
            assert_eq!(now, before[key as usize]);
        }
    }
}

#[test]
fn joined_ring_equals_built_ring() {
    let mut joined = ConsistentHashRing::new(&[0, 1], 40);
    joined.add_node(2);
    let built = ConsistentHashRing::new(&[0, 1, 2], 40);
    for key in 0..300u64 {
        assert_eq!(joined.partition(&key, 3), built.partition(&key, 3));
    }
}

#[test]
fn joining_twice_changes_nothing() {
    let once = ConsistentHashRing::new(&[0, 1, 2], 25);
    let mut twice = ConsistentHashRing::new(&[0, 1, 2], 25);
    twice.add_node(1);
    assert_eq!(twice.node_count(), 3);
    for key in 0..300u64 {
        assert_eq!(twice.partition(&key, 3), once.partition(&key, 3));
    }
    twice.remove_node(1);
    assert_eq!(twice.node_count(), 2);
    let rest = std_ring(&[0, 2], 25);
    for key in 0..300u64 {
        assert_eq!(twice.partition(&key, 2), std_owner(&rest, std_hash(&key)));
    }
}

#[test]
fn nodes_join_and_leave_empty_rings() {
    let mut ring = ConsistentHashRing::new(&[], 8);
    ring.remove_node(3);
    assert_eq!(ring.partition(&7u64, 1), 0);
    ring.add_node(3);
    assert_eq!(ring.partition(&7u64, 1), 3);
    ring.remove_node(3);
    assert_eq!(ring.node_count(), 0);
    assert_eq!(ring.partition(&7u64, 1), 0);
}
