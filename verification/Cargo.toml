[package]
name = "codecs"
version = "0.1.0"
edition = "2021"
publish = false

[dependencies]
bytes = "1"
futures = "0.3"
tokio = { version = "1", features = ["net", "rt-multi-thread", "io-util", "time"] }
tokio-util = { version = "0.7", features = ["codec"] }

[dev-dependencies]
serde_json = "1"
