[package]
name = "compactor_core"
version = "0.1.0"
edition = "2021"
publish = false

[dependencies]
uuid = { version = "=1.27.0", features = ["v4"] }
sqlparser = { version = "=0.63.0", features = ["serde"] }
clap = { version = "=4.6.7", features = ["derive"] }
serde_json = "=1.0.151"
