//! Data partitioning for distributed GPU processing with ternary balance signals.
//!
//! The crate offers partitioning strategies (hash, range, round-robin, consistent hashing),
//! balance monitoring with ternary signals (+1 balanced, 0 skewed, -1 hotspot), and
//! automatic rebalancing of key assignments. Every function states in its contract what it
//! returns, and Verus proves that it does. The exceptions are the two functions of `digest`
//! that hand a text or a key to its `Hash` implementation: what the first claims is not proved,
//! and the second claims nothing.

pub mod balance;
pub mod digest;
pub mod double;
pub mod excess;
pub mod label;
pub mod loads;
pub mod partition_map;
pub mod partitioner;
pub mod range;
pub mod rebalance;
pub mod ring;
pub mod round_robin;
pub mod sorting;
pub mod threshold;

pub use balance::TernaryBalance;
pub use partition_map::PartitionMap;
pub use partitioner::{HashPartitioner, Partitioner};
pub use range::RangePartitioner;
pub use rebalance::rebalance;
pub use ring::ConsistentHashRing;
pub use round_robin::RoundRobinPartitioner;
pub use threshold::Threshold;
