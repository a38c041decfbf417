[package]
name = "graph_neighbor_matching"
version = "0.1.0"
edition = "2021"
publish = false

[dependencies]
munkres = "*"
nalgebra = "*"
