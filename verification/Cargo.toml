[package]
name = "quorvec"
version = "0.1.0"
edition = "2021"
publish = false

[dependencies]
anyhow = "=1.0.104"
bincode = "=1.3.3"
crc32fast = "=1.5.4"
openraft = { version = "=0.9.25", features = ["serde", "storage-v2"] }
# The node writes out its wire messages and service plumbing itself, so it needs the
# message derive and tonic's codec for it where generated code would bring them in.
prost = "=0.14.4"
tonic-prost = "=0.14.9"
serde = { version = "=1.0.229", features = ["derive"] }
serde_json = "=1.0.154"
simsimd = "=6.5.16"
thiserror = "=2.0.21"
tokio = { version = "=1.54.1", features = ["full"] }
toml = "=0.8.23"
tonic = "=0.14.9"
tracing = "=0.1.44"
tracing-subscriber = { version = "=0.3.23", features = ["env-filter"] }
xxhash-rust = { version = "=0.8.19", features = ["xxh64"] }
