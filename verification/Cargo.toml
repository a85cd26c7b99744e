[package]
name = "tweetsim"
version = "0.1.0"
edition = "2021"
publish = false

[dependencies]
rand = "0.8"
tokio = { version = "1", features = ["full"] }
mongodb = "*"
serde = { version = "1", features = ["derive"] }
toml = "*"
log = "*"
simple_logger = "*"
chrono = "*"
egg-mode = "*"
futures = "*"
yansi = "*"
rocket = { version = "0.5", features = ["json"] }
