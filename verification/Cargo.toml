[package]
name = "flexi_cad"
version = "0.1.0"
edition = "2021"
publish = false

[dependencies]
uuid = { version = "=0.8.2", features = ["v4", "serde"] }
ccl = "=4.13.3"
indexmap = "=1.9.3"
bincode = "=1.3.3"
serde = { version = "=1.0.229", features = ["derive"] }
serde_json = "=1.0.154"
cgmath = { version = "=0.17.0", features = ["serde"] }
crossbeam-channel = "=0.5.17"
rayon = "=1.12.0"
lazy_static = "=1.5.1"
log = "=0.4.35"
