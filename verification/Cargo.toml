[package]
name = "mcclankattack"
version = "0.1.0"
edition = "2021"
publish = false

[dependencies]
anyhow = "1"
chrono = { version = "0.4", default-features = false, features = ["clock", "std"] }
fastrand = "2"
flate2 = "1"
md5 = "*"
tokio = { version = "1", features = ["rt-multi-thread", "net", "io-util", "sync", "time"] }
