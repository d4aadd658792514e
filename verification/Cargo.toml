[package]
name = "ntorrent"
version = "0.1.0"
edition = "2021"
publish = false

[dependencies]
sha1 = "=0.11.0"
tokio = { version = "=1.53.2", features = ["full"] }
tokio-util = { version = "=0.7.19", features = ["codec"] }
bytes = "=1.12.1"
futures = "=0.3.34"
serde = { version = "=1.0.229", features = ["derive"] }
serde_bencode = "=0.2.4"
serde_bytes = "=0.11.19"
rand = "=0.10.3"
reqwest = { version = "=0.13.5", default-features = false, features = ["query"] }
clap = "=4.6.7"
ctrlc = "=3.5.2"
url = "=2.5.8"
