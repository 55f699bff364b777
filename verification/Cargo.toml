[package]
name = "hdfs-bridge"
version = "0.1.0"
edition = "2021"
publish = false

[dependencies]
bytes = "1"
futures = "0.3"
hdfs-native = "*"
tokio = { version = "1", features = ["rt-multi-thread", "sync"] }
