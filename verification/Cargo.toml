[package]
name = "cjdns_admin"
version = "0.1.0"
edition = "2021"
publish = false

[dependencies]
bytes = "1"
dirs = "*"
eyre = "0.6"
futures-util = { version = "0.3", features = ["sink"] }
hex = "0.4"
log = "0.4"
regex = "1"
serde = { version = "1", features = ["derive"] }
serde_json = "1"
sodiumoxide = "0.2"
thiserror = "*"
tokio = { version = "1", features = ["fs", "io-util", "macros", "net", "rt-multi-thread", "sync", "time"] }
tokio-util = { version = "0.7", features = ["codec"] }
