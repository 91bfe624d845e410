[package]
name = "raft_rs"
version = "0.1.0"
edition = "2021"
publish = false

[dependencies]
axum = "0.7"
clap = { version = "4", features = ["derive"] }
futures = "0.3"
log = "0.4"
rand = "0.8"
reqwest = { version = "0.12", default-features = false }
rmp-serde = "1"
serde = { version = "1", features = ["derive"] }
snafu = "0.8"
tokio = { version = "1", features = ["full"] }
