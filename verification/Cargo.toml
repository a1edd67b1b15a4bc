[package]
name = "room_relay"
version = "0.1.0"
edition = "2021"
publish = false

[dependencies]
uuid = { version = "1", features = ["v4", "serde"] }
warp = "0.3"
tokio = { version = "1", features = ["macros", "rt-multi-thread", "sync", "time"] }
futures = "0.3"
serde = { version = "1", features = ["derive"] }
serde_json = "1"
jsonwebtoken = "9"
rand = "0.8"
rust-crypto = "0.2"
base64 = "0.13"
log = "0.4"
pretty_env_logger = "0.5"
