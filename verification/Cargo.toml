[package]
name = "yt_fetcher"
version = "0.1.0"
edition = "2021"
publish = false

[dependencies]
reqwest = { version = "0.12", default-features = false, features = ["json", "stream", "rustls-tls"] }
tokio = { version = "1", features = ["fs", "io-util", "sync", "time", "rt", "macros", "rt-multi-thread"] }
futures-util = "0.3"
serde_json = "1"
