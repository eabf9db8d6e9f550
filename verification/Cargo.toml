[package]
name = "rusty_pin"
version = "0.1.0"
edition = "2021"
publish = false

[dependencies]
serde_json = "*"
url = "*"
chrono = "*"
reqwest = { version = "*", default-features = false, features = ["blocking"] }
