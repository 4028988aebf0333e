[package]
name = "bgp_analyzer"
version = "0.1.0"
edition = "2021"
publish = false

[dependencies]
anyhow = "=1.0.104"
arrow-array = "=60.1.0"
arrow-schema = "=60.1.0"
bgpkit-broker = "=0.14.2"
bgpkit-parser = "=0.23.0"
chrono = { version = "=0.4.45", features = ["serde"] }
clap = { version = "=4.6.7", features = ["derive", "env"] }
csv = "=1.4.0"
indexmap = "=2.14.2"
ipnet = { version = "=2.12.2", features = ["serde"] }
ipnet-trie = "=0.3.1"
oneio = "=0.27.0"
parquet = { version = "=60.1.0", default-features = false, features = ["arrow", "zstd"] }
reqwest = { version = "=0.13.5", features = ["blocking", "json"] }
rusqlite = { version = "=0.41.1", features = ["bundled"] }
serde = { version = "=1.0.229", features = ["derive"] }
serde_json = "=1.0.154"
tracing = "=0.1.44"
tracing-subscriber = { version = "=0.3.23", features = ["env-filter"] }
url = "=2.5.8"
valley-free = "=0.3.1"
