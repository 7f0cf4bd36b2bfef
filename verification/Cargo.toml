[package]
name = "gday"
version = "0.1.0"
edition = "2021"
publish = false

[dependencies]
chacha20poly1305 = { version = "=0.10.1", features = ["stream"] }
rand = "=0.8.8"
tokio = { version = "=1.54.1", features = ["io-util", "sync", "time", "rt"] }
pin-project = "=1.1.13"
postcard = { version = "=1.1.3", features = ["use-std"] }
serde = { version = "=1.0.229", features = ["derive"] }
thiserror = "=1.0.69"
