[package]
name = "ambidiff-core"
version = "0.1.0"
edition = "2021"
publish = false

[dependencies]
libc = "0.2"
notify = "8"
serde = { version = "1", features = ["derive"] }
serde_json = { version = "1", features = ["preserve_order", "float_roundtrip"] }
syntect = { version = "5", default-features = false, features = ["default-fancy"] }
tempfile = "3"
thiserror = "2"
wasm-bindgen = "0.2"
