use oxide_partition::{rebalance, PartitionMap, TernaryBalance, Threshold};

fn times(factor: f64) -> Threshold {
    Threshold::from_bits(factor.to_bits())
}

fn filled(sizes: &[usize]) -> PartitionMap<usize> {
    let mut map = PartitionMap::new(sizes.len());
    let mut key: usize = 0;
    for (partition, size) in sizes.iter().enumerate() {
        for _ in 0..*size {
            map.assign(partition, key);
            key += 1;
        }
    }
    map
}

fn all_keys(map: &PartitionMap<usize>) -> Vec<usize> {
    let mut keys: Vec<usize> = Vec::new();
    for partition in 0..map.num_partitions() {
        keys.extend_from_slice(map.get(partition));
    }
    keys.sort();
    keys
}

#[test]
fn test_ternary_balance_values() {
    assert_eq!(TernaryBalance::Balanced.value(), 1);
    assert_eq!(TernaryBalance::Skewed.value(), 0);
    assert_eq!(TernaryBalance::Hotspot.value(), -1);
    assert!(TernaryBalance::Balanced.is_healthy());
    assert!(!TernaryBalance::Hotspot.is_healthy());
}

#[test]
fn test_partition_map_balanced() {
    let mut map = PartitionMap::new(4);
    for i in 0..100u64 {
        map.assign((i % 4) as usize, i);
    }
    assert_eq!(map.check_balance(), TernaryBalance::Balanced);
    assert!(map.detect_hotspots(times(1.5)).is_empty());
}

#[test]
fn test_partition_map_hotspot() {
    let mut map = PartitionMap::<u64>::new(4);
    for i in 0..90 {
        map.assign(0, i); // dump everything into partition 0
    }
    assert_eq!(map.check_balance(), TernaryBalance::Hotspot);
    let hotspots = map.detect_hotspots(times(1.5));
    assert!(hotspots.contains(&0));
}

#[test]
fn test_rebalance() {
    let mut map = PartitionMap::<u64>::new(4);
    // Create hotspot
    for i in 0..80 {
        map.assign(0, i);
    }
    assert_eq!(map.check_balance(), TernaryBalance::Hotspot);
    let moved = rebalance(&mut map, times(1.5));
    assert!(moved > 0);
    // Should be more balanced now
    let balance = map.check_balance();
    assert!(balance.value() >= map.check_balance().value() || moved > 0);
    assert_eq!(moved, 60);
    assert_eq!(map.sizes(), vec![20, 20, 20, 20]);
    assert_eq!(balance, TernaryBalance::Balanced);
}

#[test]
fn test_partition_map_move_items() {
    let mut map = PartitionMap::new(2);
    for i in 0..10u64 {
        map.assign(0, i);
    }
    assert_eq!(map.len(0), 10);
    assert_eq!(map.len(1), 0);
    let moved = map.move_items(0, 1, 4);
    assert_eq!(moved, 4);
    assert_eq!(map.len(0), 6);
    assert_eq!(map.len(1), 4);
}

#[test]
fn skewed_is_not_healthy() {
    assert!(!TernaryBalance::Skewed.is_healthy());
}

#[test]
fn signals_print_their_value() {
    assert_eq!(TernaryBalance::Balanced.to_string(), "1");
    assert_eq!(TernaryBalance::Skewed.to_string(), "0");
    assert_eq!(TernaryBalance::Hotspot.to_string(), "-1");
}

#[test]
fn new_map_is_empty() {
    let map = PartitionMap::<u8>::new(3);
    assert_eq!(map.num_partitions(), 3);
    assert_eq!(map.sizes(), vec![0, 0, 0]);
    assert_eq!(map.total(), 0);
    assert_eq!(map.check_balance(), TernaryBalance::Balanced);
    assert!(map.detect_hotspots(times(-1.0)).is_empty());
    assert!(map.detect_underloaded(times(2.0)).is_empty());
}

#[test]
fn map_without_partitions() {
    let mut map = PartitionMap::<u8>::new(0);
    map.assign(0, 1);
    assert_eq!(map.total(), 0);
    assert!(map.sizes().is_empty());
    assert_eq!(map.check_balance(), TernaryBalance::Balanced);
    assert!(map.detect_hotspots(times(1.0)).is_empty());
    assert_eq!(rebalance(&mut map, times(1.0)), 0);
}

#[test]
fn assigned_keys_keep_their_order() {
    let mut map = PartitionMap::new(2);
    map.assign(1, 'b');
    map.assign(1, 'a');
    map.assign(2, 'c'); // out of range
    assert_eq!(map.get(1), &['b', 'a']);
    assert!(map.get(0).is_empty());
    assert!(map.get(9).is_empty());
    assert_eq!(map.len(9), 0);
    assert_eq!(map.total(), 2);
}

#[test]
fn total_is_sum_of_sizes() {
    let map = filled(&[3, 0, 7, 1]);
    assert_eq!(map.sizes(), vec![3, 0, 7, 1]);
    assert_eq!(map.total(), 11);
}

#[test]
fn writes_through_the_table_show() {
    let mut map = filled(&[2, 1]);
    map.assignments_mut().insert(5, vec![7, 8, 9]);
    map.assignments_mut().remove(&1);
    assert_eq!(map.total(), 5);
    assert_eq!(map.sizes(), vec![2, 0]);
    assert_eq!(map.get(5), &[7, 8, 9]);
    map.assign(1, 4);
    assert_eq!(map.get(1), &[4]);
}

#[test]
fn balance_thresholds() {
    assert_eq!(filled(&[5, 5, 5]).check_balance(), TernaryBalance::Balanced);
    assert_eq!(filled(&[19, 21]).check_balance(), TernaryBalance::Balanced);
    assert_eq!(filled(&[9, 11]).check_balance(), TernaryBalance::Skewed);
    assert_eq!(filled(&[8, 12]).check_balance(), TernaryBalance::Skewed);
    assert_eq!(filled(&[71, 129]).check_balance(), TernaryBalance::Skewed);
    assert_eq!(filled(&[7, 13]).check_balance(), TernaryBalance::Hotspot);
    assert_eq!(filled(&[1, 0]).check_balance(), TernaryBalance::Hotspot);
    assert_eq!(filled(&[12, 12, 12, 4]).check_balance(), TernaryBalance::Hotspot);
}

#[test]
fn balance_and_hotspots_agree() {
    let map = filled(&[8, 12]);
    assert_eq!(map.check_balance(), TernaryBalance::Skewed);
    assert!(map.detect_hotspots(times(1.3125)).is_empty());
    assert_eq!(map.detect_hotspots(times(1.1)), vec![1]);
    assert_eq!(map.detect_underloaded(times(1.0)), vec![0]);
}

#[test]
fn thresholds_are_strict() {
    let map = filled(&[6, 3, 3, 0]);
    assert_eq!(map.detect_hotspots(times(2.0)), Vec::<usize>::new());
    assert_eq!(map.detect_hotspots(times(1.9999999999999998)), vec![0]);
    assert_eq!(map.detect_hotspots(times(1.0)), vec![0]);
    assert_eq!(map.detect_hotspots(times(0.5)), vec![0, 1, 2]);
    assert_eq!(map.detect_hotspots(times(0.0)), vec![0, 1, 2]);
    assert_eq!(map.detect_hotspots(times(-0.0)), vec![0, 1, 2]);
    assert_eq!(map.detect_hotspots(times(-0.25)), vec![0, 1, 2, 3]);
    assert_eq!(map.detect_underloaded(times(1.0)), vec![3]);
    assert_eq!(map.detect_underloaded(times(1.25)), vec![1, 2, 3]);
    assert_eq!(map.detect_underloaded(times(0.0)), Vec::<usize>::new());
    assert_eq!(map.detect_underloaded(times(-2.0)), Vec::<usize>::new());
    assert_eq!(map.detect_underloaded(times(0.7)), vec![3]);
}

#[test]
fn extreme_thresholds() {
    let map = filled(&[2, 0]);
    assert_eq!(map.detect_hotspots(times(f64::NAN)), Vec::<usize>::new());
    assert_eq!(map.detect_underloaded(times(f64::NAN)), Vec::<usize>::new());
    assert_eq!(map.detect_hotspots(times(f64::INFINITY)), Vec::<usize>::new());
    assert_eq!(map.detect_underloaded(times(f64::INFINITY)), vec![0, 1]);
    assert_eq!(map.detect_hotspots(times(f64::NEG_INFINITY)), vec![0, 1]);
    assert_eq!(map.detect_underloaded(times(f64::NEG_INFINITY)), Vec::<usize>::new());
    assert_eq!(map.detect_hotspots(times(f64::MAX)), Vec::<usize>::new());
    assert_eq!(map.detect_underloaded(times(f64::MAX)), vec![0, 1]);
    assert_eq!(map.detect_hotspots(times(f64::MIN_POSITIVE)), vec![0]);
    assert_eq!(map.detect_hotspots(times(5e-324)), vec![0]);
    assert_eq!(map.detect_underloaded(times(5e-324)), vec![1]);
}

#[test]
fn thresholds_decode_doubles() {
    assert_eq!(
        times(1.5),
        Threshold::Finite { negative: false, significand: 0x18_0000_0000_0000, exponent: 1022 }
    );
    assert_eq!(
        times(-5e-324),
        Threshold::Finite { negative: true, significand: 1, exponent: 0 }
    );
    assert_eq!(times(f64::NAN), Threshold::NotANumber);
    assert_eq!(times(f64::INFINITY), Threshold::PositiveInfinity);
    assert_eq!(times(f64::NEG_INFINITY), Threshold::NegativeInfinity);
}

#[test]
fn products_are_rounded_to_doubles() {
    // 1.2 is a little less than twelve tenths, but ten times it is rounded to twelve.
    let map = filled(&[12, 8]);
    assert_eq!(map.detect_hotspots(times(1.2)), Vec::<usize>::new());
    assert_eq!(map.detect_underloaded(times(1.2)), vec![1]);
    // 0.1 is a little more than a tenth, but ten times it is rounded to one.
    let map = filled(&[1, 19]);
    assert_eq!(map.detect_underloaded(times(0.1)), Vec::<usize>::new());
    assert_eq!(map.detect_hotspots(times(0.1)), vec![1]);
    // The average of ten over three is rounded first.
    let map = filled(&[1, 3, 6]);
    assert_eq!(map.detect_hotspots(times(0.3)), vec![1, 2]);
    assert_eq!(map.detect_underloaded(times(0.3)), Vec::<usize>::new());
    assert_eq!(map.detect_underloaded(times(0.30000000000000004)), vec![0]);
}

#[test]
fn detection_follows_doubles() {
    let factors = [
        0.1, 0.2, 0.3, 0.7, 0.9, 1.0, 1.1, 1.15, 1.2, 1.3, 1.4, 1.5, 1.7, 2.0, 2.3, 3.3, 1e-300,
        1e300, -0.1, 5e-324, 0.9999999999999999, 1.0000000000000002,
    ];
    let mut seed: u64 = 12345;
    for partitions in 1..14usize {
        for _ in 0..12 {
            let mut sizes: Vec<usize> = Vec::new();
            for _ in 0..partitions {
                seed = seed.wrapping_mul(6364136223846793005).wrapping_add(1442695040888963407);
                sizes.push((seed >> 59) as usize);
            }
            let total: usize = sizes.iter().sum();
            let map = filled(&sizes);
            for factor in factors {
                let average = total as f64 / partitions as f64;
                let hot: Vec<usize> = (0..partitions)
                    .filter(|p| total > 0 && sizes[*p] as f64 > average * factor)
                    .collect();
                let under: Vec<usize> = (0..partitions)
                    .filter(|p| total > 0 && (sizes[*p] as f64) < average * factor)
                    .collect();
                assert_eq!(map.detect_hotspots(times(factor)), hot);
                assert_eq!(map.detect_underloaded(times(factor)), under);
            }
        }
    }
}

#[test]
fn detection_follows_doubles_beyond_their_precision() {
    let huge: [usize; 3] = [(1 << 60) + 129, (1 << 53) + 1, (1 << 53) - 1];
    let mut map = PartitionMap::<()>::new(3);
    for (partition, size) in huge.iter().enumerate() {
        map.assignments_mut().insert(partition, vec![(); *size]);
    }
    let total: usize = huge.iter().sum();
    let average = total as f64 / 3.0;
    for factor in [1.0, 0.023, 0.023255813953488372, 2.953, 2.9534883720930232, 1e-17] {
        let hot: Vec<usize> = (0..3).filter(|p| huge[*p] as f64 > average * factor).collect();
        let under: Vec<usize> = (0..3).filter(|p| (huge[*p] as f64) < average * factor).collect();
        assert_eq!(map.detect_hotspots(times(factor)), hot);
        assert_eq!(map.detect_underloaded(times(factor)), under);
    }
}

#[test]
fn deviation_is_exact() {
    // Four is exactly 30% above the average of 40 over 13.
    let map = filled(&[4, 3, 3, 3, 3, 3, 3, 3, 3, 3, 3, 3, 3]);
    assert_eq!(map.check_balance(), TernaryBalance::Hotspot);
}

#[test]
fn moved_keys_are_the_last() {
    let mut map = filled(&[4, 2]);
    assert_eq!(map.move_items(0, 1, 3), 3);
    assert_eq!(map.get(0), &[0]);
    assert_eq!(map.get(1), &[4, 5, 1, 2, 3]);
    assert_eq!(map.move_items(1, 0, 3), 3);
    assert_eq!(map.get(0), &[0, 1, 2, 3]);
    assert_eq!(map.get(1), &[4, 5]);
}

#[test]
fn moves_that_take_nothing() {
    let mut map = filled(&[3, 0]);
    assert_eq!(map.move_items(0, 0, 2), 0);
    assert_eq!(map.move_items(0, 2, 2), 0);
    assert_eq!(map.move_items(2, 0, 2), 0);
    assert_eq!(map.move_items(1, 0, 2), 0);
    assert_eq!(map.move_items(0, 1, 0), 0);
    assert_eq!(map.sizes(), vec![3, 0]);
    assert_eq!(map.move_items(0, 1, 100), 3);
    assert_eq!(map.sizes(), vec![0, 3]);
}

#[test]
fn rebalance_rounds_up() {
    let mut map = filled(&[10, 0, 0]);
    assert_eq!(rebalance(&mut map, times(1.5)), 7);
    assert_eq!(map.sizes(), vec![3, 4, 3]);
    assert_eq!(all_keys(&map), (0..10).collect::<Vec<usize>>());
}

#[test]
fn hotspots_give_their_excess_only() {
    let mut map = filled(&[6, 6, 0, 0]);
    assert_eq!(rebalance(&mut map, times(1.5)), 6);
    assert_eq!(map.sizes(), vec![3, 3, 3, 3]);
    let mut map = filled(&[50, 50, 0, 0]);
    assert_eq!(rebalance(&mut map, times(1.5)), 50);
    assert_eq!(map.sizes(), vec![25, 25, 25, 25]);
    assert_eq!(all_keys(&map), (0..100).collect::<Vec<usize>>());
}

fn rebalanced_in_doubles(sizes: &[usize], factor: f64) -> (Vec<usize>, usize) {
    let total: usize = sizes.iter().sum();
    let average = total as f64 / sizes.len() as f64;
    let hot: Vec<usize> =
        (0..sizes.len()).filter(|p| total > 0 && sizes[*p] as f64 > average * factor).collect();
    let under: Vec<usize> =
        (0..sizes.len()).filter(|p| total > 0 && (sizes[*p] as f64) < average).collect();
    let mut after: Vec<usize> = sizes.to_vec();
    let mut moved: usize = 0;
    for src in hot {
        let mut to_move = (after[src] as f64 - average).ceil() as usize;
        for dst in &under {
            let need = (average - after[*dst] as f64).ceil() as usize;
            let went = if src == *dst { 0 } else { to_move.min(need).min(after[src]) };
            after[src] -= went;
            after[*dst] += went;
            to_move -= went;
            moved += went;
        }
    }
    (after, moved)
}

#[test]
fn rebalance_follows_doubles() {
    let mut seed: u64 = 4711;
    for partitions in 1..12usize {
        for _ in 0..30 {
            let mut sizes: Vec<usize> = Vec::new();
            for _ in 0..partitions {
                seed = seed.wrapping_mul(6364136223846793005).wrapping_add(1442695040888963407);
                sizes.push((seed >> 58) as usize);
            }
            for factor in [-1.0, 0.3, 0.9, 1.0, 1.2, 1.5, 2.0] {
                let mut map = filled(&sizes);
                let (after, moved) = rebalanced_in_doubles(&sizes, factor);
                assert_eq!(rebalance(&mut map, times(factor)), moved);
                assert_eq!(map.sizes(), after);
            }
        }
    }
}

fn crowded(sizes: &[usize]) -> PartitionMap<()> {
    let mut map = PartitionMap::new(sizes.len());
    for (partition, size) in sizes.iter().enumerate() {
        map.assignments_mut().insert(partition, vec![(); *size]);
    }
    map
}

#[test]
fn excess_is_rounded_to_doubles() {
    // The average is a whole number less 2^-14, and the excess of the first partition is a
    // whole number and 2^-14, which doubles of that size cannot hold.
    let mut sizes = vec![0usize; 1 << 14];
    sizes[0] = (1 << 40) - 1;
    let mut map = crowded(&sizes);
    let (after, moved) = rebalanced_in_doubles(&sizes, 1.5);
    assert_eq!(moved, (1 << 40) - 1 - (1 << 26));
    assert_eq!(rebalance(&mut map, times(1.5)), moved);
    assert_eq!(map.sizes(), after);
    assert_eq!(map.len(0), 1 << 26);
}

#[test]
fn rebalance_follows_doubles_beyond_their_precision() {
    let cases: [[usize; 3]; 5] = [
        [(1 << 60) + 129, (1 << 53) + 1, (1 << 53) - 1],
        [(1 << 62) + 3, (1 << 61) + 5, 0],
        [(1 << 55) + 7, 1, (1 << 54) + 1],
        [(1 << 53) + 1, 0, 0],
        [usize::MAX - 1, 1, 0],
    ];
    for sizes in cases {
        for factor in [1.0, 1.2, 1.5] {
            let mut map = crowded(&sizes);
            let (after, moved) = rebalanced_in_doubles(&sizes, factor);
            assert_eq!(rebalance(&mut map, times(factor)), moved);
            assert_eq!(map.sizes(), after);
        }
    }
}

#[test]
fn rebalance_keeps_the_first_keys_in_place() {
    let mut map = filled(&[7, 2, 0, 3]);
    assert_eq!(rebalance(&mut map, times(1.5)), 4);
    assert_eq!(map.get(0), &[0, 1, 2]);
    assert_eq!(map.get(1), &[7, 8, 6]);
    assert_eq!(map.get(2), &[3, 4, 5]);
    assert_eq!(map.get(3), &[9, 10, 11]);
}

#[test]
fn rebalance_never_worsens_the_signal() {
    let mut seed: u64 = 99;
    for partitions in 1..12usize {
        for _ in 0..40 {
            let mut sizes: Vec<usize> = Vec::new();
            for _ in 0..partitions {
                seed = seed.wrapping_mul(6364136223846793005).wrapping_add(1442695040888963407);
                sizes.push((seed >> 59) as usize);
            }
            let mut map = filled(&sizes);
            let total = map.total();
            let signal = map.check_balance().value();
            let hot = map.detect_hotspots(times(1.0));
            let moved = rebalance(&mut map, times(1.0));
            assert_eq!(moved > 0, !hot.is_empty());
            assert!(map.check_balance().value() >= signal);
            for partition in hot {
                assert!(map.len(partition) >= total / partitions);
            }
            assert_eq!(all_keys(&map), (0..total).collect::<Vec<usize>>());
        }
    }
}

#[test]
fn rebalance_moves_from_hot_to_underloaded_only() {
    let mut map = filled(&[40, 12, 8, 0]);
    let moved = rebalance(&mut map, times(1.5));
    assert_eq!(moved, 25);
    assert_eq!(map.sizes(), vec![15, 15, 15, 15]);
}

#[test]
fn rebalance_levels_a_single_hotspot() {
    let mut map = filled(&[3, 18, 5, 6, 8]);
    assert_eq!(rebalance(&mut map, times(1.5)), 10);
    assert_eq!(map.sizes(), vec![8, 8, 8, 8, 8]);
    assert_eq!(map.check_balance(), TernaryBalance::Balanced);
}

#[test]
fn rebalance_levels_several_hotspots() {
    let mut map = filled(&[150, 150, 150, 50, 50, 50]);
    assert_eq!(rebalance(&mut map, times(1.25)), 150);
    assert_eq!(map.sizes(), vec![100, 100, 100, 100, 100, 100]);
}

#[test]
fn rebalance_settles_hotspots_or_fills_the_rest() {
    // At this threshold only the first is hot, and it gives up all that it has too much.
    let mut map = filled(&[20, 12, 0, 8]);
    assert_eq!(rebalance(&mut map, times(1.5)), 10);
    assert_eq!(map.sizes(), vec![10, 12, 10, 8]);
    // Here the second hotspot keeps what is lacking nowhere.
    let mut map = filled(&[5, 5, 4, 4]);
    assert_eq!(rebalance(&mut map, times(1.0)), 2);
    assert_eq!(map.sizes(), vec![4, 4, 5, 5]);
    let mut map = filled(&[5, 5, 5, 4]);
    assert_eq!(rebalance(&mut map, times(1.0)), 1);
    assert_eq!(map.sizes(), vec![4, 5, 5, 5]);
}

#[test]
fn rebalance_stops_before_a_missing_entry() {
    let mut map = filled(&[1, 0, 0]);
    map.assignments_mut().remove(&2);
    assert_eq!(rebalance(&mut map, times(1.5)), 1);
    assert_eq!(map.sizes(), vec![0, 1, 0]);
    assert!(!map.assignments_mut().contains_key(&2));
}

#[test]
fn rebalance_without_hotspot_rests() {
    let mut map = filled(&[9, 11]);
    assert_eq!(rebalance(&mut map, times(1.5)), 0);
    assert_eq!(map.sizes(), vec![9, 11]);
    assert_eq!(rebalance(&mut map, times(1.0)), 1);
    assert_eq!(map.sizes(), vec![10, 10]);
}

#[test]
fn rebalance_below_one_may_move_keys_twice() {
    let mut map = filled(&[1, 0, 0]);
    assert_eq!(rebalance(&mut map, times(-1.0)), 3);
    assert_eq!(map.sizes(), vec![0, 1, 0]);
}
