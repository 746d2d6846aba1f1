[package]
name = "lucidmq"
version = "0.1.0"
edition = "2021"
publish = false

[dependencies]
bincode = "1.3"
rand = "0.8"
log = "0.4"
tokio = { version = "1", features = ["net", "sync", "rt", "rt-multi-thread", "io-util", "macros"] }
tokio-tungstenite = "0.20"
futures = "0.3"
futures-util = "0.3"
capnp = "0.19"
