[package]
name = "voxel_logic"
version = "0.1.0"
edition = "2021"
publish = false

[dependencies]
petgraph = "*"
bit-vec = "*"
fxhash = "*"
clap = { version = "*", features = ["derive"] }
