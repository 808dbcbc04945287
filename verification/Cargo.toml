[package]
name = "poker"
version = "0.1.0"
edition = "2021"
publish = false

[dependencies]
rand = "0.8"
uuid = { version = "1", features = ["v4"] }
serde = { version = "1", features = ["derive"] }
serde_json = "1"
log = "0.4"
env_logger = "0.11"
simple_logger = "5"
socket2 = { version = "0.5", features = ["all"] }
local-ip-address = "0.6"
sysinfo = "0.30"
tokio = { version = "1", features = ["full"] }
axum = { version = "0.7", features = ["ws"] }
bb8 = "0.8"
bb8-postgres = "0.8"
tokio-postgres = { version = "0.7", features = ["with-uuid-1", "with-serde_json-1"] }
postgres-types = { version = "0.2", features = ["with-serde_json-1"] }
dotenvy = "0.15"
