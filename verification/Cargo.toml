[package]
name = "lobby_registry"
version = "0.1.0"
edition = "2021"
publish = false

[dependencies]
uuid = { version = "*", features = ["v4"] }
serde = { version = "*", features = ["derive"] }
serde_json = "*"
ron = "*"
easy-repl = "*"
owo-colors = "*"
