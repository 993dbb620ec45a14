[package]
name = "payments_engine"
version = "0.1.0"
edition = "2021"
publish = false

[dependencies]
csv = "*"
num_cpus = "*"
serde = { version = "*", features = ["derive"] }
