[package]
name = "lecar"
version = "0.1.0"
edition = "2021"
publish = false

[dependencies]
indexmap = "*"
rand = "*"
rand_chacha = "*"
serde = { version = "*", features = ["derive"] }
serde_json = "*"
