[package]
name = "voiq_core"
version = "0.1.0"
edition = "2021"
publish = false

[dependencies]
calamine = "0.30"
csv = "=1.4.0"
pyo3 = { version = "=0.22.6", features = ["extension-module"] }
rand = "=0.8.8"
rusqlite = { version = "=0.32.1", features = ["bundled"] }
serde = { version = "=1.0.229", features = ["derive"] }
strsim = "=0.11.1"
