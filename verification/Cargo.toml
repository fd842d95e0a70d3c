[package]
name = "duckdb-qvd"
version = "0.1.0"
edition = "2021"
publish = false

[dependencies]
qvd = "=0.7.1"
openqvd = "=2.0.0"
glob = "=0.3.4"
duckdb = { version = "=1.10503.1", features = ["vtab-loadable", "loadable-extension"] }
