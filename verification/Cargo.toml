[package]
name = "nebula_tools"
version = "0.1.0"
edition = "2021"
publish = false

[dependencies]
zstd = "0.13"
serde = { version = "1", features = ["derive"] }
serde_json = "1"
anyhow = "1"
rand = "0.8"
pest = "2"
pest_derive = "2"
