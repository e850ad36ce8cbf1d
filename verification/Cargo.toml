[package]
name = "octofact"
version = "0.1.0"
edition = "2021"
publish = false

[dependencies]
serde = { version = "1", features = ["derive"] }
bincode = "1"
toml = "0.8"
directories = "5"
log = "0.4"
env_logger = "0.11"
slotmap = "1"
smallvec = "1"
