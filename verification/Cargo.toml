[package]
name = "bittorrent_core"
version = "0.1.0"
edition = "2021"
publish = false

[dependencies]
anyhow = "=1.0.104"
bincode = "=2.0.1"
bytes = "=1.12.1"
clap = "=4.6.7"
config = { version = "=0.15.27", default-features = false, features = ["toml"] }
directories = "=6.0.0"
hex = "=0.4.3"
rand = "=0.9.5"
reqwest = { version = "=0.12.28", default-features = false }
serde = { version = "=1.0.229", features = ["derive"] }
sha1 = "=0.10.7"
thiserror = "=2.0.21"
tokio = { version = "=1.54.1", features = ["full"] }
tracing = "=0.1.44"
tracing-subscriber = "=0.3.23"
url = "=2.5.8"
urlencoding = "=2.1.3"
