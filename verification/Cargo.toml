[package]
name = "wget"
version = "0.1.0"
edition = "2021"
publish = false

[dependencies]
async-recursion = "1"
chrono = "0.4"
clap = { version = "4", features = ["derive"] }
futures = "0.3"
indicatif = "0.17"
lazy_static = "1"
pathdiff = "0.2"
regex = "1"
reqwest = { version = "0.12", default-features = false, features = ["stream", "rustls-tls", "charset", "http2"] }
scraper = "0.23"
tokio = { version = "1", features = ["full"] }
url = "2.5"
