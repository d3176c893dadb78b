[package]
name = "btclib"
version = "0.1.0"
edition = "2021"
publish = false

[dependencies]
k256 = { version = "0.13", features = ["ecdsa", "pem"] }
ecdsa = "0.16"
spki = { version = "0.7", features = ["pem"] }
sha2 = "0.10"
rand_core = { version = "0.6", features = ["getrandom"] }
chrono = "0.4"
uuid = { version = "1", features = ["v4"] }
tokio = { version = "1", features = ["rt-multi-thread", "net", "io-util", "sync", "time", "macros"] }
dashmap = "*"
anyhow = "1"
argh = "0.1"
static_init = "*"
