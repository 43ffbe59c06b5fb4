[package]
name = "territory"
version = "0.1.0"
edition = "2021"
publish = false

[dependencies]
arrayvec = "0.5"
rand = "0.7"
serde = { version = "1", features = ["derive"] }
serde_json = "1"
serde_repr = "0.1"
wasm-bindgen = "0.2"
web-sys = { version = "0.3", features = ["console"] }
gif = "0.10"
png = "0.16"
base64 = "0.12"
