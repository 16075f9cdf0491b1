[package]
name = "indexed_docs"
version = "0.1.0"
edition = "2021"
publish = false

[dependencies]
derive_more = "0.99"
rodio = "0.20"
schemars = "0.8"
serde = { version = "1", features = ["derive"] }
