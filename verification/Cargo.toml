[package]
name = "fact_state"
version = "0.1.0"
edition = "2021"
publish = false

[dependencies]
starknet-crypto = "*"
starknet-types-core = "*"
serde = { version = "*", features = ["derive"] }
serde_json = "*"
