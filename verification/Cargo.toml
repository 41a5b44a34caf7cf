[package]
name = "liked_songs"
version = "0.1.0"
edition = "2021"
publish = false

[dependencies]
aws-config = "=0.101.0"
aws-sdk-s3 = "=0.38.0"
diffy = { version = "=0.5.2", features = ["color"] }
env_logger = "=0.11.11"
futures = "=0.3.34"
rspotify = { version = "=0.16.1", features = ["cli"] }
serde = { version = "=1.0.229", features = ["derive"] }
serde_json = "=1.0.154"
tokio = { version = "=1.54.1", features = ["full"] }
