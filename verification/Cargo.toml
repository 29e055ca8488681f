[package]
name = "bittorrent"
version = "0.1.0"
edition = "2021"
publish = false

[dependencies]
hex = "0.4"
reqwest = { version = "0.12", default-features = false, features = ["blocking"] }
serde_json = "1"
sha1 = "0.10"
tokio = { version = "1", features = ["net", "io-util", "rt"] }
url = "2"
