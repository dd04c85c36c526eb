[package]
name = "hn_reader"
version = "0.1.0"
edition = "2021"
publish = false

[dependencies]
scraper = "*"
html-escape = "*"
reqwest = { version = "*", default-features = false, features = ["blocking", "rustls-tls"] }
