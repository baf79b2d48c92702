[package]
name = "cord"
version = "0.1.0"
edition = "2021"
publish = false

[dependencies]
bytes = "0.4"
byteorder = "1"
uuid = { version = "0.8", features = ["v4"] }
rand = "0.7"
tokio = "0.1"
tokio-codec = "0.1"
futures = "0.1"
futures-locks = "0.3"
clap = "2"
env_logger = "0.6"
log = "0.4"
