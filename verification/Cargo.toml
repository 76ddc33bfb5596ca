[package]
name = "ageing_sim"
version = "0.1.0"
edition = "2021"
publish = false

[dependencies]
rand = "0.8"
clap = "2"
serde = "*"
serde_derive = "*"
serde_json = "*"
tiny-keccak = { version = "2", features = ["sha3"] }
