[package]
name = "cityhall"
version = "0.1.0"
edition = "2021"
publish = false

[dependencies]
crc32fast = "1"
fastrand = "2"
tokio = { version = "1", default-features = false, features = ["rt-multi-thread", "net", "io-util", "time", "macros", "signal", "sync"] }
