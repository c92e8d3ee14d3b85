[package]
name = "wifi_manager"
version = "0.1.0"
edition = "2021"
publish = false

[dependencies]
tokio = { version = "1", features = ["rt-multi-thread", "macros", "process", "time", "io-util"] }
slint = { version = "1", default-features = false, features = ["std", "compat-1-2"] }
