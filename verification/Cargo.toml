[package]
name = "nowcast"
version = "0.1.0"
edition = "2021"
publish = false

[dependencies]
anyhow = "=1.0.104"
clap = { version = "=4.6.7", features = ["derive"] }
serde = { version = "=1.0.229", features = ["derive"] }
serde_json = "=1.0.154"
thiserror = "=2.0.21"
rayon = "=1.12.0"
ndarray = "=0.16.1"
surtgis-core = "=1.6.0"
swarm-abm = "=0.4.0"
insar-core = "=0.3.0"
numpy = "=0.25.0"
pyo3 = { version = "=0.25.1", features = ["extension-module", "abi3-py39"] }
