[package]
name = "kotoba"
version = "0.1.0"
edition = "2021"
publish = false

[dependencies]
charabia = { version = "*", default-features = false }
fst = "0.4"
serde_json = { version = "1", features = ["preserve_order"] }
