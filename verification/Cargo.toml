[package]
name = "jwt_rsa"
version = "0.1.0"
edition = "2021"
publish = false

[dependencies]
base64-url = "*"
serde_json = "*"
serde = { version = "*", features = ["derive"] }
chrono = "*"
