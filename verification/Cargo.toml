[package]
name = "lonelybot"
version = "0.1.0"
edition = "2021"
publish = false

[dependencies]
arrayvec = "0.7"
hashbrown = "*"
nohash-hasher = "0.2"
quick_cache = "*"
rand = { version = "0.9", features = ["small_rng"] }
serde_json = "1"
pyo3 = { version = "0.22", features = ["abi3-py38"] }
