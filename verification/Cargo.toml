[package]
name = "explorer_core"
version = "0.1.0"
edition = "2021"
publish = false

[dependencies]
arboard = { version = "*", default-features = false }
serde = { version = "*", features = ["derive"] }
serde_json = "*"
trash = "*"
walkdir = "*"
zip = "*"
