[package]
name = "fire"
version = "0.1.0"
edition = "2021"
publish = false

[dependencies]
url = "2"
serde = { version = "1", features = ["derive"] }
serde_json = "1"
serde_yaml = "0.9"
ureq = { version = "2", default-features = false }
clap = { version = "4", features = ["derive"] }
dialoguer = "0.11"
termcolor = "1"
giro = "*"
syntect = { version = "5", default-features = false, features = ["default-fancy"] }
