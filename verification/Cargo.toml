[package]
name = "shield"
version = "0.1.0"
edition = "2021"
publish = false

[dependencies]
anyhow = "1"
async-trait = "0.1"
axum = "0.6"
base64 = "0.13"
bb8-redis = "0.13"
bincode = "1"
bytes = "1"
crc = "3"
endorphin = "0.1"
futures = "0.3"
http = "0.2"
http-body = "0.4"
http-serde = "1"
hyper = { version = "0.14", features = ["full"] }
once_cell = "1"
pin-project = "1"
rand = "0.8"
regex = "1"
reqwest = { version = "0.11", default-features = false }
serde = { version = "1", features = ["derive"] }
serde_json = "1"
sync_wrapper = "0.1"
thiserror = "1"
tokio = { version = "1", features = ["full"] }
tower = { version = "0.4", features = ["full"] }
tower-http = { version = "0.4", features = ["full"] }
tracing = "0.1"
tracing-subscriber = { version = "0.3", features = ["env-filter"] }
