[package]
name = "esi"
version = "0.1.0"
edition = "2021"
publish = false

[dependencies]
quick-xml = "0.22.0"
fastly = "*"
hyper = { version = "0.14", features = ["client", "http1", "tcp"] }
log = "0.4"
env_logger = "*"
thiserror = "1.0"
