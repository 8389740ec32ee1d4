[package]
name = "gs_rs"
version = "0.1.0"
edition = "2021"
publish = false

[dependencies]
petgraph = "*"
nalgebra = { version = "*", features = ["sparse"] }
serde = { version = "*", features = ["derive"] }
serde_json = "*"

[dev-dependencies]
approx = "*"
