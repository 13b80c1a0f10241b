[package]
name = "r2r_for_fastlio2"
version = "0.1.0"
edition = "2021"
publish = false

[dependencies]
nohash-hasher = "0.2"
anyhow = "1"
bincode = "1"
bytes = "1"
env_logger = "*"
futures = "0.3"
log = "0.4"
pcd-rs = { version = "*", features = ["derive"] }
r2r = "*"
s2n-quic = "1"
serde = { version = "1", features = ["derive"] }
tokio = { version = "1", features = ["full"] }
