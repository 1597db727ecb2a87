[package]
name = "xlog_core"
version = "0.1.0"
edition = "2021"
publish = false

[dependencies]
byteorder = "1"
chrono = { version = "0.4", default-features = false, features = ["std"] }
flate2 = "1"
hex = "0.4"
jni = "0.21"
walkdir = "2"
zstd = "0.13"
