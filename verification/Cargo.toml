[package]
name = "dns-proxy"
version = "0.1.0"
edition = "2021"
publish = false

[dependencies]
bytes = "1"
log = "0.4"
tokio = { version = "1", features = ["full"] }
tokio-native-tls = "0.3"
ttl_cache = "0.5"
