[package]
name = "wasm_devirt"
version = "0.1.0"
edition = "2021"
publish = false

[dependencies]
walrus = "0.20"
clap = "2"
rmp-serde = "1"
serde = { version = "1", features = ["derive"] }
