[package]
name = "stargate"
version = "0.1.0"
edition = "2021"
publish = false

[dependencies]
anyhow = "*"
async-trait = "*"
clap = { version = "*", features = ["derive"] }
futures = "*"
interfaces = "*"
ipnet = "*"
iptables = "*"
nix = { version = "*", features = ["socket", "net"] }
rtnetlink = "*"
serde = { version = "*", features = ["derive"] }
serde_json = "*"
socket2 = "*"
tokio = { version = "*", features = ["full"] }
tokio-util = "*"
tracing = "*"
tracing-subscriber = "*"
