[package]
name = "datesync"
version = "0.1.0"
edition = "2021"
publish = false

[dependencies]
anyhow = "*"
chrono = "*"
clap = { version = "*", features = ["derive"] }
fern = "*"
indicatif = "*"
log = "*"
reqwest = { version = "*", default-features = false, features = ["json"] }
serde_json = "*"
tokio = { version = "*", features = ["rt-multi-thread", "macros", "sync", "fs", "io-util"] }
