[package]
name = "vkqueue"
version = "0.1.0"
edition = "2021"
publish = false

[dependencies]
ash = "0.37"
tokio = { version = "1", features = ["rt", "rt-multi-thread", "sync", "macros"] }
image = "0.24"
log = "0.4"
