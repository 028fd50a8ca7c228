[package]
name = "duckdb_ml"
version = "0.14.0"
edition = "2021"
publish = false

[dependencies]
serde = { version = "=1.0.229", features = ["derive"] }
serde_json = "=1.0.154"
sha2 = "=0.10.9"
bincode = { version = "=2.0.1", features = ["serde"] }
thiserror = "=2.0.21"
log = "=0.4.35"
arrow = "=60.1.0"
duckdb = { version = "=1.20000.1", features = ["vtab-arrow", "vscalar", "vscalar-arrow", "loadable-extension"] }
ort = { version = "=2.0.0-rc.15", default-features = false, features = ["std", "load-dynamic"] }
