[package]
name = "callgraph"
version = "0.1.0"
edition = "2021"
publish = false

[dependencies]
petgraph = "*"
syn = { version = "2", features = ["full", "visit"] }
toml = "*"
