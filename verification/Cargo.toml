[package]
name = "crawler"
version = "0.1.0"
edition = "2021"
publish = false

[dependencies]
html-filter = "*"
tokio = { version = "*", features = ["full"] }
crossterm = "*"
reqwest = { version = "*", default-features = false, features = ["rustls-tls"] }
