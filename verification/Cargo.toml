[package]
name = "strace-log-utils"
version = "0.1.0"
edition = "2021"
publish = false

[dependencies]
anyhow = "1"
clap = { version = "3.2", default-features = false, features = ["std"] }

[dev-dependencies]
nom = "7"
