[package]
name = "quoridor"
version = "0.1.0"
edition = "2021"
publish = false

[dependencies]
arrayvec = "0.7.8"
bit_field = "0.10.3"
disjoint-sets = "0.4.2"
env_logger = "0.11"
log = "0.4"
serde = { version = "1", features = ["derive"] }
serde_json = "1"
shell-words = "1.1"
webbrowser = "1"
ws = "0.9.2"
