[package]
name = "aw_fm"
version = "0.1.0"
edition = "2021"
publish = false

[dependencies]
ahash = "=0.8.12"
chrono = "=0.4.45"
clap = { version = "=4.6.7", features = ["derive"] }
dirs = "=7.0.0"
env_logger = "=0.11.11"
hashlink = "=0.12.2"
humansize = "=2.1.3"
libc = "=0.2.191"
log = "=0.4.35"
notify = "=8.2.1"
num-format = "=0.4.4"
path-clean = "=1.0.1"
regex = "=1.13.1"
rmp-serde = "=1.3.1"
rusqlite = { version = "=0.41.1", features = ["bundled"] }
serde = { version = "=1.0.229", features = ["derive"] }
tokio = { version = "=1.54.1", features = ["rt", "sync", "time", "macros"] }
users = "=0.11.0"
