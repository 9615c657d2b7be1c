[package]
name = "hsaga"
version = "0.1.0"
edition = "2021"
publish = false

[dependencies]
rand = "0.9"
itertools = "0.14"
rayon = "1"
serde = { version = "1", features = ["derive"] }
serde_json = "1"
dialoguer = "0.11"
humantime = "2"
