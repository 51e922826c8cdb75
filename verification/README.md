# mirage_analyzer

Control-flow analysis of functions: path enumeration, dominance and
post-dominance, dominance frontiers, natural loops, branch patterns,
inter-procedural graphs, CFG diffs and exports. The analyses are written in
Verus and proved against specifications stated over the graph's blocks and
edges.

Layout:

- `src/` — the verified library.
  - `cfg/graph.rs`, `cfg/icfg_graph.rs`, `cfg/block_graph.rs`: the petgraph
    containers and the operations used on them, each with its contract.
  - `cfg/paths/`: bounded depth-first path enumeration (`search.rs` states
    the search as a recursive specification), feasibility and
    classification, statistics, estimates.
  - `cfg/dominators.rs`, `cfg/post_dominators.rs`, `cfg/dominance.rs`,
    `cfg/dominance_frontiers.rs`, `cfg/loops.rs`, `cfg/coordinates.rs`:
    dominance-based analyses, related to walks in the graph.
  - `cfg/icfg*.rs`: inter-procedural graphs and their projection.
  - `cfg/ast.rs`: CFG construction from a syntax tree held as a node arena.
  - `analysis/`: risk factors, suggestions and report types.
- `tests/` — tests of the library on concrete graphs.
- `app/` — what stays outside the proofs: database and git access,
  tree-sitter input, floating-point scores and colours, serializable report
  types.
