[package]
name = "circuit_netlist"
version = "0.1.0"
edition = "2021"
publish = false

[dependencies]
generational-arena = "0.2"
bimap = "0.6"
serde = { version = "1", features = ["derive"] }
serde_json = "1"
anyhow = "1"
thiserror = "1"
lazy_static = "1"
cxx = "1"
