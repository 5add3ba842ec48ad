[package]
name = "moontfhe_native"
version = "0.2.0"
edition = "2021"
publish = false

[dependencies]
aes-gcm = "=0.10.3"
rustfft = "6"
tfhe = { version = "*", features = ["boolean"] }
bincode = "1"
