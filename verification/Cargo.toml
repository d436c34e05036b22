[package]
name = "goblin_core"
version = "0.1.0"
edition = "2021"
publish = false

[dependencies]
uuid = { version = "1", features = ["v4", "serde"] }
serde = { version = "1", features = ["derive"] }
serde_json = "1"
axum = { version = "0.7", default-features = false, features = ["json"] }
