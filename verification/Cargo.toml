[package]
name = "cubes_lib"
version = "0.1.0"
edition = "2021"
publish = false

[dependencies]
flate2 = "=1.1.10"
bincode = "1"
serde = { version = "1", features = ["derive"] }
