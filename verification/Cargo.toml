[package]
name = "indexed_bucket"
version = "0.1.0"
edition = "2021"
publish = false

[dependencies]
cosmwasm-std = { version = "*", features = ["iterator"] }
serde = { version = "*", features = ["derive"] }
