[package]
name = "wololo"
version = "0.1.0"
edition = "2021"
publish = false

[dependencies]
argh = "*"
axum = "*"
env_logger = "*"
futures = "*"
log = "*"
maud = "*"
quick-xml = { version = "*", features = ["serialize"] }
reqwest = { version = "*", default-features = false }
serde = { version = "*", features = ["derive"] }
thiserror = "*"
tokio = { version = "*", features = ["full"] }
wake-on-lan = "*"
