[package]
name = "vfs495"
version = "0.1.0"
edition = "2021"
publish = false

[dependencies]
aes = "0.8"
cbc = { version = "0.1", features = ["alloc", "block-padding"] }
md-5 = "0.10"
sha1 = "0.10"
num-bigint = "0.4"
rand = "0.8"
hex = "0.4"
anyhow = "1"
clap = { version = "4", features = ["derive"] }
env_logger = "0.11"
log = "0.4"
rusb = "0.9"
serde = { version = "1", features = ["derive"] }
serde_json = "1"
