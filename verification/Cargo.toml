[package]
name = "readyset_core"
version = "0.1.0"
edition = "2021"
publish = false

[dependencies]
ahash = "0.8"
smallvec = { version = "1", features = ["union"] }
anyhow = "1"
bincode = "1"
futures = "0.3"
futures-util = { version = "0.3", features = ["sink"] }
strawpoll = "0.2"
tokio = { version = "1", features = ["macros", "net", "io-util", "sync", "time", "rt"] }
tokio-stream = { version = "0.1", features = ["time"] }
tracing = "0.1"
