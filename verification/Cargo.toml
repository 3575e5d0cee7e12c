[package]
name = "quaternion"
version = "0.1.0"
edition = "2021"
publish = false

[dependencies]
parking_lot = "0.12"
rand = "0.8"
rand_chacha = "0.3"
clap = { version = "4", features = ["derive"] }
wasm-bindgen = "0.2"
