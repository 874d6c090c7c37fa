[package]
name = "sparrow"
version = "0.1.0"
edition = "2021"
publish = false

[dependencies]
arrow = { version = "=34.0.0", default-features = false, features = ["csv"] }
chrono = { version = "=0.4.38", default-features = false }
parquet = { version = "=34.0.0", default-features = false, features = ["arrow"] }
prettytable-rs = "0.10"
tempfile = "=3.27.0"
uuid = { version = "=1.29.0", features = ["v4"] }
