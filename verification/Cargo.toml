[package]
name = "discipline_net"
version = "0.1.0"
edition = "2021"
publish = false

[dependencies]
anyhow = "1"
nix = { version = "0.27", features = ["socket", "net", "fs"] }
pico-args = "0.5"
rand = "0.8"
rmp-serde = "1"
ron = "0.8"
serde = { version = "1", features = ["derive"] }
serde_json = "1"
tungstenite = "0.21"
url = "2"
