[package]
name = "nihil"
version = "0.1.0"
edition = "2021"
publish = false

[dependencies]
async-trait = "0.1"
clap = { version = "4", features = ["derive"] }
color-eyre = "0.6"
hickory-client = "0.25"
hickory-proto = "0.25"
hickory-server = "0.25"
inquire = "*"
reedline = { version = "*", features = ["external_printer"] }
tokio = { version = "1", features = ["rt-multi-thread", "macros", "net", "sync", "time"] }
