[package]
name = "cxon"
version = "0.1.0"
edition = "2021"
publish = false

[dependencies]
num_cpus = "1"
pathdiff = "0.2"
serde = { version = "1", features = ["derive"] }
serde_json = "1"
