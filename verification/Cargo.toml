[package]
name = "folding_1d"
version = "0.1.0"
edition = "2021"
publish = false

[dependencies]
rayon = "=1.12.0"
petgraph = "=0.6.5"
rand = "0.8"
