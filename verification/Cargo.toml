[package]
name = "extropic_sim"
version = "0.1.0"
edition = "2021"
publish = false

[dependencies]
blade-graphics = "*"
blade-macros = "*"
bytemuck = { version = "1", features = ["derive"] }
pyo3 = { version = "*", features = ["abi3-py39", "extension-module"] }
