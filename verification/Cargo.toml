[package]
name = "llama_switcher"
version = "0.1.0"
edition = "2021"
publish = false

[dependencies]
serde = { version = "1", features = ["derive"] }
serde_json = "1"
chrono = "0.4"
rand = "0.8"
ipnet = "2"
ureq = { version = "2", default-features = false }
tiny_http = "0.12"
boa_engine = "0.20"
