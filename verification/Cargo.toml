[package]
name = "kv_squeeze"
version = "0.1.0"
edition = "2021"
publish = false

[dependencies]
clap = { version = "=4.6.7", features = ["derive"] }
comfy-table = "=7.2.2"
rand = "=0.8.8"
rayon = "=1.12.0"

[dev-dependencies]
half = "=2.7.1"
