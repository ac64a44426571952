[package]
name = "spotility"
version = "0.1.0"
edition = "2021"
publish = false

[dependencies]
rspotify = { version = "*", features = ["cli"] }
tokio = { version = "*", features = ["macros", "rt-multi-thread", "time"] }
futures = "*"
chrono = "*"
clap = { version = "*", features = ["cargo", "env"] }
clipboard = "*"
