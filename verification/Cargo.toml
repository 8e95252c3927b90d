[package]
name = "matching_engine"
version = "0.1.0"
edition = "2021"
publish = false

[dependencies]
lazy_static = "1"
rtrb = "0.3"
serde = { version = "1", features = ["derive"] }
serde_json = "1"
tiny_http = "0.12"
