[package]
name = "journal_vault"
version = "0.1.0"
edition = "2021"
publish = false

[dependencies]
aes = "0.8"
aes-gcm = "0.10"
argon2 = "0.5"
base64 = "0.22"
ctr = "0.9"
rand = "0.8"
parking_lot = "0.12"
time = { version = "0.3", features = ["formatting"] }
uuid = { version = "1", features = ["v4"] }
