[package]
name = "bibliotheque"
version = "0.1.0"
edition = "2021"
publish = false

[dev-dependencies]
serde_json = { version = "1", features = ["preserve_order"] }
