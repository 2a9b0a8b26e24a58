[package]
name = "matrix_bot"
version = "0.1.0"
edition = "2021"
publish = false

[dependencies]
http = "*"
ruma = "*"
serde = { version = "*", features = ["derive"] }
toml = "*"
