[package]
name = "tailtalk"
version = "0.1.0"
edition = "2021"
publish = false

[dependencies]
anyhow = "1"
byteorder = "1"
bytes = "1"
dashmap = "6"
encoding_rs = "0.8"
futures = "0.3"
im = "15"
mac_address = "1"
magic-db = "*"
pcap = "2"
rand = "*"
sled = "0.34"
tokio = { version = "1", features = ["full"] }
tokio-serial = { version = "5", default-features = false }
tokio-util = { version = "0.7", features = ["full"] }
tracing = "0.1"
xattr = "1"
