[package]
name = "envrbw"
version = "0.1.0"
edition = "2021"
publish = false

[dependencies]
anyhow = "*"
clap = { version = "*", features = ["derive"] }
rpassword = "*"
serde = { version = "*", features = ["derive"] }
serde_json = "*"
spinners = "*"
