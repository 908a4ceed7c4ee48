[package]
name = "justbus"
version = "0.1.0"
edition = "2021"
publish = false

[dependencies]
actix-web = "*"
lta = "*"
serde = { version = "*", features = ["derive"] }
serde_json = "*"
