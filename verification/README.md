# tile_scheduler

Schedules a tensor computation graph on a device with a small fast memory
and a bandwidth-limited slow memory: it picks convex subgraphs of operations,
splits each into stages, chooses which intermediate tensors stay in fast
memory and at which tile size each stage runs, and reports the latency.

The library in `src/` is written in Verus; every function there carries a
contract that Verus checks:

- `graph`, `subgraph`, `input_format`: the graph model, its topological
  order and operations on sets of operations (subtraction, connected
  components, input and output tensors).
- `tiling`: the search for the best tile of a subgraph.
- `performance_model`: the latency of a stage at a tile, as exact fractions.
- `partition`: splitting a subgraph along kept edges, and the greedy search
  over those edges.
- `local_optimization`: the search over execution states for the cheapest
  chain of stages; its contract states that the chain returned costs no more
  than any other plan of the steps it considers.
- `schedule`, `traversal`, `naive_scheduler`: convex subgraphs and their
  cover constraints, orders of subgraphs and tiles, and the one-operation
  baseline.
- `rational`: fraction arithmetic, backed by the `fraction` crate.

`app/` is the command-line program around it: reading and writing JSON,
the integer program that picks the subgraphs, and parallel planning.
`tests/` holds the tests.
