[package]
name = "settrade_dw"
version = "0.2.0"
edition = "2021"
publish = false

[dependencies]
chrono = "*"
brotli = "*"
reqwest = { version = "*", default-features = false, features = ["cookies", "rustls-tls"] }

[dev-dependencies]
rand = "0.8"
