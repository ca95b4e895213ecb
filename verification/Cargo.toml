[package]
name = "connectivity"
version = "0.1.0"
edition = "2021"
publish = false

[dependencies]
clap = "2"
config = "0.9"
futures = "0.3"
local-ip = "*"
log = "0.4"
rand = "0.7"
serde = { version = "1.0", features = ["derive"] }
simple_logger = "1"
tokio = { version = "0.2", features = ["macros", "rt-core", "rt-threaded", "stream", "sync", "time"] }
