[package]
name = "toolkit"
version = "0.1.0"
edition = "2021"
publish = false

[dependencies]
csv = "=1.4.0"
dotenvy = "=0.15.7"
encoding_rs = "=0.8.44"
md5 = "=0.7.0"
regex = "1"
reqwest = { version = "=0.12.28", default-features = false, features = ["json", "blocking"] }
rusqlite = { version = "=0.32.1", features = ["bundled"] }
serde = "=1.0.229"
serde_json = "=1.0.154"
tokio = { version = "=1.54.1", features = ["rt-multi-thread"] }
urlencoding = "=2.1.3"
