[package]
name = "fed_mrmr"
version = "0.1.0"
edition = "2021"
publish = false

[dependencies]
csv = "1"
nalgebra = { version = "*", features = ["serde-serialize"] }
nalgebra-sparse = "*"
serde = { version = "1", features = ["derive"] }
serde_json = "1"
clap = { version = "3", features = ["derive"] }
