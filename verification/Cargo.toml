[package]
name = "barabasi_albert_simulation"
version = "0.1.0"
edition = "2021"
publish = false

[dependencies]
petgraph = "0.6"
petgraph-gen = "0.1"
rand = "0.8"
anyhow = "1"
clap = { version = "4", features = ["derive"] }
