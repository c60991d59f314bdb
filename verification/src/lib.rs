pub mod bisim;
pub mod critical;
pub mod digraph;
pub mod graph;
pub mod impact;
pub mod layers;
pub mod manifest;
pub mod model;
pub mod order;

pub use bisim::BisimulationChecker;
pub use digraph::Dir;
pub use graph::{DependencyGraph, GraphError, in_fleet_edge_count};
pub use manifest::{CrateNode, ManifestError, dedup_by_name, scan_cargo_tomls};
pub use critical::CriticalPath;
pub use layers::LayerCalculator;
pub use impact::ImpactAnalyzer;
