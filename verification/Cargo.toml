[package]
name = "chronicle"
version = "0.1.0"
edition = "2021"
publish = false

[dependencies]
sha2 = "0.10"
httparse = "1"
serde = { version = "1", features = ["derive"] }
serde_json = "1"
thiserror = "2"
uuid = { version = "1", features = ["v4"] }
tokio = { version = "1", features = ["net", "io-util", "time", "rt"] }
time = "0.3"
rustix = { version = "1", features = ["fs"] }
