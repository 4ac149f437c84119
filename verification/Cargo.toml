[package]
name = "periphery"
version = "0.1.0"
edition = "2021"
publish = false

[dependencies]
anyhow = "1"
arc-swap = "1"
async_timing_util = "*"
bollard = "*"
cap-fs-ext = "*"
cap-std = "*"
flate2 = "1"
futures-util = "0.3"
hex = "0.4"
libc = "0.2"
mogh_resolver = "*"
serde = { version = "1", features = ["derive"] }
serde_json = "1"
serde_yaml_ng = "0.10"
sevenz-rust2 = "*"
sha2 = "0.10"
shell-escape = "0.1"
tar = "0.4"
tokio = { version = "1", features = ["full"] }
uuid = { version = "1", features = ["v4"] }
xattr = "1"
zip = "*"
