[package]
name = "spma_retrieval"
version = "0.1.0"
edition = "2021"
publish = false

[dependencies]
spma = "=0.1.0"
anyhow = "=1.0.104"
ndarray = "=0.17.2"
ort = { version = "=2.0.0-rc.15", default-features = false, features = ["std", "ndarray", "load-dynamic"] }
tokenizers = "=0.23.2"
