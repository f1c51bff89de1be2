[package]
name = "deduplicator"
version = "0.1.0"
edition = "2021"
publish = false

[dependencies]
csv = "=1.4.0"
geo = "=0.33.1"
geojson = "*"
rusqlite = { version = "=0.40.2", features = ["bundled"] }
crossbeam-channel = "=0.5.17"
num_cpus = "=1.17.0"
