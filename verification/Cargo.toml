[package]
name = "arbor"
version = "0.1.0"
edition = "2021"
publish = false

[dependencies]
clap = { version = "4", features = ["derive"] }
crossterm = "*"
dirs = "*"
tokio = { version = "1", features = ["fs", "io-util", "sync", "rt-multi-thread", "macros"] }
