[package]
name = "crate_graph"
version = "0.1.0"
edition = "2021"
publish = false

[dependencies]
anyhow = "1"
clap = { version = "4", features = ["derive"] }
colored = "2"
petgraph = "0.6"
toml = "0.8"
