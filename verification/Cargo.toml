[package]
name = "credvault"
version = "0.1.0"
edition = "2021"
publish = false

[dependencies]
addr = "*"
aes-gcm = "*"
argon2 = "*"
base64 = "*"
rand = "*"
linked-hash-map = "*"
sha256 = "*"
clap = { version = "*", features = ["derive"] }
clipboard = "*"
