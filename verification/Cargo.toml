[package]
name = "tagsearch"
version = "0.1.0"
edition = "2021"
publish = false

[dependencies]
hex = "*"
sha2 = "*"
subtle = "*"
serde = { version = "*", features = ["derive"] }
serde_json = "*"
rand = "*"
