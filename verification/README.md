# oxide_partition

Data partitioning for distributed GPU processing, verified with Verus.

- `src/` is the library. Every function states in its contract what it returns or changes,
  and Verus proves that it does, except for two functions of `digest` (see below).
  - `partition_map`, `balance`, `rebalance`: which keys live on which partition, the ternary
    balance signal (+1 balanced, 0 skewed, -1 hotspot), and moving keys from hotspots to
    underloaded partitions.
  - `partitioner`, `range`, `round_robin`, `ring`: strategies that assign keys to partitions
    by hash, by range, by turns, and by consistent hashing.
  - `threshold`, `double`, `loads`, `excess`: multiples of the average load, and how far loads
    are from it, in double precision.
  - `digest`, `label`, `sorting`: hashing with the default hasher of std, the names of virtual
    nodes, and a stable merge sort.
- `tests/` runs the library on concrete values.
- `app/` takes thresholds as `f64` and prints the balance signal.

The laws of the library are the public proof functions whose names start with `law_`: what
moves keep, when a pass makes progress and what it leaves behind, which keys stay where they
are when a node joins or leaves a ring, and so on.

What is not proved is in `digest`: two functions that hand a text or a key to its `Hash`
implementation. Of a text it is taken that what it writes to the hasher comes after what was
written before, and depends on the text alone. Of a key nothing is taken; where a law needs its hashing to be consistent, it says so.
