[package]
name = "ipc_broker"
version = "0.1.0"
edition = "2021"
publish = false

[dependencies]
uuid = { version = "1", features = ["v4"] }
serde = { version = "1", features = ["derive"] }
serde_json = "1"
tokio = { version = "1", features = ["full"] }
async-trait = "0.1"
log = "0.4"
fern = "*"
chrono = "0.4"
dirs = "*"
local-ip-address = "*"
