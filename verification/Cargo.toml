[package]
name = "safecloset"
version = "0.1.0"
edition = "2021"
publish = false

[dependencies]
aes-gcm-siv = "0.11"
argon2 = "0.5"
rand = "0.8"
