[package]
name = "passtool"
version = "0.1.0"
edition = "2021"
publish = false

[dependencies]
aes-gcm-siv = "=0.11.1"
sha2 = "=0.10.9"
rand = "=0.8.8"

[dev-dependencies]
random-string = "*"
