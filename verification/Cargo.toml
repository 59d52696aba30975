[package]
name = "tokimeki_quant_rust"
version = "0.1.0"
edition = "2021"
publish = false

[dependencies]
serde_json = "1"
quick-xml = "0.37"
rand = "0.8"
rand_distr = "0.4"
rayon = "1"
parking_lot = "0.12"
tokio = { version = "1", features = ["rt-multi-thread", "macros", "sync", "time"] }
tokio-stream = "0.1"
futures-util = "0.3"
reqwest = { version = "0.12", default-features = false, features = ["rustls-tls", "stream"] }
tokio-tungstenite = { version = "0.24", features = ["rustls-tls-webpki-roots"] }
