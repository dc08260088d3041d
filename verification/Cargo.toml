[package]
name = "meshlink"
version = "0.1.0"
edition = "2021"
publish = false

[dependencies]
aes-gcm = "=0.10.3"
base64 = "=0.23.1"
bs58 = "=0.5.1"
chrono = "=0.4.45"
pqcrypto-kyber = "=0.8.1"
pqcrypto-traits = "=0.3.5"
rand = "=0.8.8"
rsa = "=0.9.10"
serde = { version = "=1.0.229", features = ["derive"] }
serde_json = "=1.0.151"
sha2 = "=0.10.9"
sled = "=0.34.7"
tokio = { version = "=1.53.2", features = ["full"] }
uuid = { version = "=1.27.0", features = ["v4"] }
