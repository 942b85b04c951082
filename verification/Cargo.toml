[package]
name = "gleipnir"
version = "0.1.0"
edition = "2021"
publish = false

[dependencies]
intervaltree = "=0.2.7"
lru_time_cache = "=0.11.11"
libc = "=0.2.191"
pnetlink = "=0.0.3"
pnet_macros_support = "=0.21.0"
qmetaobject = "=0.2.10"
tarpc = { version = "=0.38.0", features = ["serde-transport", "serde-transport-bincode", "unix"] }
tokio = { version = "=1.54.1", features = ["rt-multi-thread", "net"] }
tokio-serde = { version = "=0.9.0", features = ["bincode"] }
futures = "=0.3.34"
failure = "=0.1.8"
serde = { version = "=1.0.229", features = ["derive"] }
