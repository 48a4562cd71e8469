[package]
name = "fsrs"
version = "0.1.0"
edition = "2021"
publish = false

[dependencies]
burn = { version = "0.17", default-features = false, features = ["std", "train", "ndarray"] }
bytemuck = "1"
itertools = "0.14"
log = "0.4"
pyo3 = { version = "0.25", features = ["abi3-py39", "extension-module"] }
rand = { version = "0.9" }
serde = { version = "1", features = ["derive"] }
wide = "0.7"
