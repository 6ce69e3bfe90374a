[package]
name = "dos_actors"
version = "0.1.0"
edition = "2021"
publish = false

[dependencies]
flume = "*"
futures = "*"
tokio = { version = "*", features = ["rt-multi-thread", "macros", "sync", "time"] }
async-trait = "*"
log = "*"
thiserror = "*"
