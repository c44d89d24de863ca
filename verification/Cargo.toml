[package]
name = "metricstore"
version = "0.1.0"
edition = "2021"
publish = false

[dependencies]
rand = "*"
time = "*"
tokio = { version = "*", default-features = false, features = ["rt-multi-thread", "net", "io-util", "sync", "macros"] }
