[package]
name = "ccf_core"
version = "0.1.0"
edition = "2021"
publish = false

[dependencies]
hashbrown = "0.15"
heapless = "0.8"
serde = { version = "1", features = ["derive"] }
pyo3 = "0.22"

[dev-dependencies]
serde_json = "1"
