[package]
name = "boj_helper"
version = "0.1.0"
edition = "2021"
publish = false

[dependencies]
scraper = "*"
anyhow = "*"
clap = { version = "*", features = ["derive"] }
reqwest = { version = "*", default-features = false }
tokio = { version = "*", features = ["macros", "rt-multi-thread"] }
