[package]
name = "event_export"
version = "0.1.0"
edition = "2021"
publish = false

[dependencies]
ethers-core = "2"
ethers-providers = "2"
tokio = { version = "1", features = ["rt-multi-thread", "macros"] }
clap = { version = "4", features = ["derive"] }
env_logger = "0.10"
log = "0.4"
eyre = "0.6"
thiserror = "1"
