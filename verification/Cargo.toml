[package]
name = "docstore"
version = "0.1.0"
edition = "2021"
publish = false

[dependencies]
lru = "=0.12.5"
lz4_flex = "0.11"
rustc-hash = "=2.1.3"
serde = { version = "=1.0.229", features = ["derive"] }
serde_json = "=1.0.154"
