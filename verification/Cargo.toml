[package]
name = "inventory_store"
version = "0.1.0"
edition = "2021"
publish = false

[dependencies]
cursive = "0.21.1"

[dev-dependencies]
serde_json = "1.0.132"
