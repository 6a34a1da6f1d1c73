[package]
name = "amba"
version = "0.1.0"
edition = "2021"
publish = false

[dependencies]
arrayvec = "=0.7.8"
smallvec = "=1.16.4"
serde = { version = "=1.0.229", features = ["derive"] }
serde_json = "=1.0.154"
bincode = "1"
clap = { version = "4", features = ["derive"] }
chrono = "0.4"
rand = "0.8"
dirs = "5"
