[package]
name = "wp-log"
version = "0.4.1"
edition = "2021"
publish = false

[dependencies]
anyhow = "=1.0.104"
log = "=0.4.35"
log4rs = { version = "=1.4.0", features = ["gzip"] }
orion_conf = "=0.8.0"
serde = { version = "=1.0.229", features = ["derive"] }
