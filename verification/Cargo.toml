[package]
name = "tile_scheduler"
version = "0.1.0"
edition = "2021"
publish = false

[dependencies]
fraction = "=0.15.4"
serde = { version = "=1.0.229", features = ["derive"] }
serde_json = "=1.0.154"
clap = { version = "=4.6.7", features = ["derive"] }
rayon = "=1.12.0"
good_lp = { version = "=1.15.3", default-features = false, features = ["microlp"] }
