[package]
name = "patmat"
version = "0.1.0"
edition = "2021"
publish = false

[dependencies]
allocator-api2 = "=0.2.21"
foldhash = "=0.2.0"
hashbrown = "=0.17.1"
indexmap = "=2.14.2"
serde = { version = "=1.0.229", features = ["derive"] }
serde-wasm-bindgen = "=0.6.5"
wasm-bindgen = "=0.2.130"

[dev-dependencies]
serde_json = "=1.0.154"
