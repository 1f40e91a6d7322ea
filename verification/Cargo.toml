[package]
name = "csv_to_json"
version = "0.1.0"
edition = "2021"
publish = false

[dependencies]
anyhow = "1"
async-stream = "0.3"
bytes = "1"
clap = { version = "4", features = ["derive"] }
futures = "0.3"
hyper = { version = "0.14", features = ["full"] }
multer = "2"
serde = { version = "1", features = ["derive"] }
serde_urlencoded = "0.7"
tokio = { version = "1", features = ["full"] }
