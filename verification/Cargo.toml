[package]
name = "disrecord"
version = "0.1.0"
edition = "2021"
publish = false

[dependencies]
clap = { version = "4", features = ["derive", "env"] }
env_logger = "0.10"
itertools = "0.10"
log = "0.4"
log-panics = "2"
serenity = { version = "0.11", default-features = false, features = ["builder", "cache", "client", "gateway", "model", "http", "rustls_backend", "voice"] }
songbird = "0.3"
tokio = { version = "1", features = ["macros", "rt-multi-thread", "sync", "fs", "time"] }
ulid = "1"
