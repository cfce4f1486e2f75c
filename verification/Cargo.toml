[package]
name = "bucket_store"
version = "0.1.0"
edition = "2021"
publish = false

[dependencies]
chrono = "0.4"
uuid = { version = "1", features = ["v4"] }
mime_guess = "2"
byte-unit = "4"
tokio = { version = "1", default-features = false, features = ["fs", "rt"] }
rusqlite = { version = "0.31", features = ["bundled"] }
serde = { version = "1", features = ["derive"] }
serde_json = "1"
xattr = "1"
