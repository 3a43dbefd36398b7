[package]
name = "kzdb"
version = "0.1.0"
edition = "2021"
publish = false

[dependencies]
anyhow = "1"
color-eyre = { version = "0.6", default-features = false }
