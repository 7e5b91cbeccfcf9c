[package]
name = "gemcrawl"
version = "0.1.0"
edition = "2021"
publish = false

[dependencies]
url = "=2.5.8"
serde = { version = "=1.0.229", features = ["derive"] }
serde_json = "=1.0.151"
tokio = { version = "0.2", features = ["tcp", "dns", "io-util", "time"] }
tokio-rustls = "=0.15.0"
rustls = { version = "=0.19.1", features = ["dangerous_configuration"] }
webpki = "=0.21.4"
smol = "=1.3.0"
