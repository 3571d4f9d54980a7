[package]
name = "powchain"
version = "0.1.0"
edition = "2021"
publish = false

[dependencies]
sha2 = "0.10"
ripemd = "0.1"
k256 = { version = "0.13", features = ["ecdsa"] }
bincode = "2"
hex = "0.4"
base58 = "0.2"
base64 = "0.22"
ethereum-types = "0.14"
sled = "0.34"
tokio = { version = "1", features = ["full"] }
tokio-util = { version = "0.7", features = ["codec"] }
futures = "0.3"
bytes = "1"
clap = { version = "4", features = ["derive"] }
once_cell = "1"
