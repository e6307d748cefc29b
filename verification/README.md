# mcmf

Minimum-cost maximum flow with integer capacities (`i64`) and costs (`i32`),
verified with Verus.

Two solvers:

- `FlowGraph` / `MCMF` (`src/graph.rs`): adjacency lists, Bellman-Ford for the
  first potentials, then successive shortest paths by Dijkstra on reduced
  costs. On return the residual network has no path from the source to the
  target, so no flow within the capacities sends more out of the source,
  and no negative cycle is reachable from the source. When the residual network had no negative cycle anywhere at the
  start, it has none at the end, and no flow within the capacities with the
  same net flow at every node costs less.
- `edge_list::MinCostMaxFlow` (`src/edge_list.rs`): one list of edges with
  per-node index lists, shortest paths by SPFA. On return the sink is
  unreachable or a negative cycle is reachable from the source; without a
  negative cycle reachable from the source at the start, the flow is
  maximum (`src/cut.rs` proves that such a flow carries at least as much as
  any flow within the capacities), and without a negative cycle anywhere at
  the start there is none at the end and the flow is of least cost
  (`src/optimal.rs`). Its flow can be split, arc by arc, into
  source-to-sink paths (`src/decompose.rs`).

Both solvers ask only that some cut between source and sink has at most
`i64::MAX` spare capacity leaving it, so that the flow fits its type.

Layout: `src/network.rs` is the mathematical model (residual walks, flow
sums); `src/potentials.rs` builds potentials from the absence of negative
cycles and `src/slot_sums.rs` turns them into least cost, and a full cut
into maximum flow, on a network;
`src/bellman.rs`, `src/search.rs`, `src/queue.rs` carry the proofs of the
first solver; `src/relax.rs` and `src/chains.rs` those of the second.
`app/main.rs` builds example networks (random ones with `rand`) and prints
the results.
