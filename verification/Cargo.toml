[package]
name = "engine"
version = "0.1.0"
edition = "2021"
publish = false

[dependencies]
bitvec = "=1.1.1"
rand = "=0.8.8"
rand_chacha = "=0.3.1"
tinyvec = { version = "=1.13.3", features = ["alloc"] }
base64 = "=0.22.1"
miniz_oxide = { version = "=0.8.9", features = ["with-alloc"] }
postcard = { version = "=1.1.3", features = ["alloc"] }
serde = { version = "=1.0.229", features = ["derive"] }
futures = "0.3"
cgmath = "0.18"
