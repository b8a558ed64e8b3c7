# mbor

Multi-level bi-objective routing, verified with Verus. Every edge of a
directed graph carries two non-negative costs; a query asks for the complete
Pareto frontier of the costs of the walks from an origin to a destination.

The library (`src/`) proves, for every input its contracts admit:

- the exact label-setting searches (`pareto_search`, `pareto_costs`, `bod`,
  `boa_star`) return the Pareto frontier of walk costs, sorted by the first
  cost, and the returned paths are walks of those costs;
- the frontier utilities (`pareto_filter`, `insert_nondominated`,
  `minkowski_sum`) compute exactly the frontiers their contracts name;
- the Multi-level Encoded Pareto Frontier View (`Mepfv`) answers `query` and
  `query_adv` with that same frontier, whatever the partition;
- the partitioners (`contiguous_partition`, `bfs_partition`) and the text
  parsers (road-graph format, partition and query files) do what their
  contracts state.

Cost limits. The searches require `walks_fit(graph, source, dest)`: the
sums they form stay within `i64` (every walk from the source that repeats no
node and avoids the destination, extended by one more edge, costs at most
`i64::MAX` in each component, with the second cost below `i64::MAX` when the
edge reaches a new node). Edge costs of at most `i64::MAX / n` imply it for
every source and destination (`lemma_bounded_walks_fit`, and the first flag
of `cost_limits`). The view (`Mepfv::build`) still requires the per-edge
limit `n^2 * cost <= i64::MAX` (`costs_square_bounded`, the second flag of
`cost_limits`).

Layout:

- `src/cost.rs`, `src/graph.rs`: cost pairs and the CSR graph.
- `src/walks.rs`, `src/relations.rs`: walks and their costs, over any graph
  and over edge relations.
- `src/pareto.rs`: frontiers and the laws that combine them.
- `src/label_setting.rs`, `src/baseline.rs`: the exact searches.
- `src/dimacs.rs`: the text formats.
- `src/fragments.rs`, `src/boundary.rs`, `src/precompute.rs`: the partitioned
  view, the boundary multigraph and the retrievals.
- `src/regions.rs`: breadth-first region growing.
- `src/workload.rs`: the exported workload (`pairs.json`, `frag.json`) as text.
- `src/parallel.rs`: the one call into rayon.
- `tests/`: the test suites.
- `app/main.rs`: the speedup benchmark (arguments, file I/O, timing).
