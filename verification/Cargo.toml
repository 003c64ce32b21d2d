[package]
name = "hopf_topology"
version = "0.1.0"
edition = "2021"
publish = false

[dependencies]
nalgebra = "*"
num-complex = "0.4"
plotters = "0.3"
rand = "0.8"
rayon = "1"
serde = { version = "1", features = ["derive"] }
