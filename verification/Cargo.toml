[package]
name = "epubtr"
version = "0.1.0"
edition = "2021"
publish = false

[dependencies]
futures-util = "0.3"
quick-xml = "0.37"
reqwest = { version = "0.12", default-features = false, features = ["json", "stream", "rustls-tls"] }
serde = { version = "1", features = ["derive"] }
serde_json = "1"
tokio = { version = "1", features = ["sync", "time"] }
zip = { version = "0.6", default-features = false, features = ["deflate"] }
