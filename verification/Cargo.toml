[package]
name = "agate"
version = "0.1.0"
edition = "2021"
publish = false

[dependencies]
url = "2"
mime_guess = "2"
tokio = { version = "1", features = ["rt", "rt-multi-thread", "net", "io-util", "sync", "fs", "macros"] }
rustls = { version = "0.23", default-features = false, features = ["ring", "std", "tls12"] }
tokio-rustls = { version = "0.26", default-features = false, features = ["ring", "tls12"] }
