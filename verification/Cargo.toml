[package]
name = "hyperlicked"
version = "0.1.0"
edition = "2021"
publish = false

[dependencies]
anyhow = "=1.0.104"
blst = "=0.3.17"
clap = { version = "=4.6.7", features = ["derive"] }
dotenvy = "=0.15.7"
hex = "=0.4.3"
reqwest = { version = "0.12", default-features = false }
serde = { version = "=1.0.229", features = ["derive"] }
serde_json = "=1.0.154"
sha2 = "=0.10.9"
tokio = { version = "=1.54.1", features = ["macros", "rt-multi-thread", "signal", "sync", "time"] }
tracing = "=0.1.44"
tracing-subscriber = { version = "=0.3.23", features = ["env-filter"] }
