[package]
name = "shard_log"
version = "0.1.0"
edition = "2021"
publish = false

[dependencies]
arrow-array = "*"
arrow-ipc = "*"
arrow-schema = "*"
axum = { version = "0.8", features = ["ws"] }
blake3 = "1"
bytes = "1"
clap = { version = "4", features = ["derive"] }
form_urlencoded = "1"
opentelemetry-proto = { version = "*", default-features = false, features = ["gen-tonic-messages", "logs"] }
pco = "*"
prost = "0.14"
prost-types = "0.14"
regex = "1"
rmp-serde = "1"
serde = { version = "1", features = ["derive"] }
serde_json = "1"
snap = "1"
tokio = { version = "1", features = ["full"] }
tokio-stream = "0.1"
zstd = "0.13"
