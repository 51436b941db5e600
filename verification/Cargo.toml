[package]
name = "phaios-core"
version = "0.1.0"
edition = "2021"
publish = false

[dependencies]
ndarray = { version = "=0.17.2", features = ["rayon"] }
rayon = "=1.12.0"
thiserror = "=2.0.21"
pyo3 = { version = "=0.30.1", features = ["abi3-py310", "extension-module"] }
numpy = "=0.30.0"
cudarc = { version = "=0.19.10", default-features = false, features = ["std", "driver", "dynamic-loading", "cuda-12000", "nvrtc"] }
