[package]
name = "machine-check"
version = "0.1.0"
edition = "2021"
publish = false

[dependencies]
intern-arc = "*"
itertools = "*"
petgraph = "0.6"
serde = { version = "1", features = ["derive"] }
serde_json = "1"
tsify = { version = "0.4", features = ["js"] }
wasm-bindgen = "0.2"
