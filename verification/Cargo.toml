[package]
name = "lau_dynamical_systems"
version = "0.1.0"
edition = "2021"
publish = false

[dependencies]
nalgebra = { version = "0.33", features = ["serde-serialize"] }
num-complex = { version = "0.4", features = ["serde"] }
serde = { version = "1", features = ["derive"] }
