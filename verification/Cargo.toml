[package]
name = "kanter_core"
version = "0.1.0"
edition = "2021"
publish = false

[dependencies]
num_cpus = "1"
image = "0.23"
nalgebra = "0.32"
serde = { version = "1", features = ["derive"] }
serde_json = "1"
tempfile = "3"
