[package]
name = "rqdb"
version = "0.1.0"
edition = "2021"
publish = false

[dependencies]
anyhow = "1"
crc32fast = "1"
env_logger = "0.11"
log = "0.4"
thiserror = "2"

[dependencies.sqlparser]
version = "0.55"
default-features = false
features = ["std"]
