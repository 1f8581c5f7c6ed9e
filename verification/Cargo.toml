[package]
name = "vsss_rs"
version = "0.1.0"
edition = "2021"
publish = false

[dependencies]
elliptic-curve = "0.13"
hex = "0.4"
rand_chacha = "0.3"
rand_core = "0.6"
serde = { version = "1", features = ["derive"] }
uint-zigzag = { version = "0.2", features = ["std"] }

[dev-dependencies]
k256 = "0.13"
