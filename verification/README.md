# crate_graph

Analysis of the dependency graph of a fleet of Rust crates: manifests are
parsed into crates, the crates into a `petgraph` graph (an edge runs from a
dependency to the crate that depends on it), and the graph is examined for
cycles, dependency layers, longest dependency chains, downstream impact and
bisimilar crates.

The library under `src/` is written in Verus and verified:

- `model.rs` — the mathematical model: node names, edge lists, neighbour
  sequences, walks, cycles, topological orders.
- `digraph.rs` — the contracts of the `petgraph` calls the library makes.
- `manifest.rs` — `CrateNode`, reading a crate from a parsed or textual
  `Cargo.toml` (through `toml`), scanning a list of manifests, deduplication.
- `graph.rs` — `DependencyGraph`: construction with and without cycle
  rejection, the edge count a fleet will give, lookups by name, neighbours.
- `layers.rs` — `LayerCalculator`: Kahn-style layering.
- `critical.rs` — `CriticalPath`: longest chains overall and through a crate.
- `impact.rs` — `ImpactAnalyzer`: downstream sets, counts, breadth-first
  depths, rankings.
- `bisim.rs` — `BisimulationChecker`: bisimilarity of dependency
  subgraphs, decided by partition refinement.
- `order.rs` — the order of crate names, and sorting.

`app/main.rs` is the command-line program: it walks the directory tree,
reads the manifests, calls the library and prints the report.
