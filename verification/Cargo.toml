[package]
name = "tonnesjakk"
version = "0.1.0"
edition = "2021"
publish = false

[dependencies]
memmap2 = "*"
ort = { version = "2.0.0-rc.10", default-features = false, features = ["std", "ndarray", "load-dynamic"] }
pyo3 = { version = "*", features = ["extension-module", "abi3-py39"] }
serde = { version = "1", features = ["derive"] }
serde_json = "1"
wide = "*"
