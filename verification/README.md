# communal

Community detection on graphs, with the integer logic verified by Verus.

## Layout

- `src/` — the verified library:
  - `id`, `graph_view`, `csr`: node identifiers, the graph trait and the
    compressed sparse row graph (built undirected from an edge list).
  - `traversal`: breadth-first and depth-first search, with reachability
    lemmas.
  - `partition`, `detector`, `louvain`, `lpa`, `fluid`, `dynamic`,
    `stepping`, `step`: partitions, baseline detectors, hierarchies and
    step events.
  - `leiden`: the integer side of the Leiden algorithm — connectivity
    checks and why moves keep communities connected, the parent snapshot of
    the refinement phase, community sizes and their upkeep, community
    grouping and renumbering, convergence counters, configuration checks.
  - `io`: reading edge lists, writing partitions and edge entries.
- `tests/`: tests of the library on concrete values.
- `app/`: the command-line program and everything that computes with
  floating-point weights and quality scores (modularity, CPM, the Leiden
  loop), built on the library.
