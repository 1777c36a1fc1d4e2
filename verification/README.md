# grafeo-metrics

Partition quality metrics for comparing two assignments of nodes to
communities: the Rand index, the adjusted Rand index, pairwise precision and
recall, and the contingency table behind the normalized mutual information.

- `src/` is the verified library (Verus). A partition (`partition::Partition`)
  keeps grafeo's `FxHashMap<NodeId, usize>`; its content is modelled as a
  finite `Map<u64, usize>`. Each metric comes back as an exact fraction
  (`Ratio`, `SignedRatio`) whose value the contracts state in terms of sets of
  node pairs (`pairs.rs`). `tally.rs` counts nodes by label in grafeo's `FxHashMap`s (as the
  original's contingency table and margins are) and proves what those counts
  say about node pairs,
  `contingency.rs` builds the contingency table and the adjusted Rand index,
  `pair_metrics.rs` holds the pair-counting metrics, and `laws.rs` the
  properties that relate several calls.
- `app/` gives the `f64` interface over `FxHashMap<NodeId, usize>`, including
  the normalized mutual information, whose logarithms stay outside the
  verified code.
