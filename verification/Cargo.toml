[package]
name = "state_tree"
version = "0.1.0"
edition = "2021"
publish = false

[dependencies]
sha3 = "=0.10.9"
serde = "=1.0.229"
hex = "=0.4.3"

[dev-dependencies]
rand = "=0.8.8"
anyhow = "=1.0.104"
