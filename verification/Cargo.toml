[package]
name = "secret_dreamscape"
version = "0.1.0"
edition = "2021"
publish = false

[dependencies]
sha2 = "=0.9.9"
rand = "=0.7.3"
rand_chacha = "=0.2.2"
secret-cosmwasm-std = "=0.10.1"
secret-toolkit = "=0.2.0"
serde = { version = "1", features = ["derive"] }
schemars = "0.7"
serde-json-wasm = "0.2"
