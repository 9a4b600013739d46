[package]
name = "dejafoo"
version = "0.1.0"
edition = "2021"
publish = false

[dependencies]
sha2 = "=0.10.9"
tokio = { version = "=1.53.2", features = ["full"] }
reqwest = { version = "=0.13.5", default-features = false }
aws-config = "=1.12.0"
aws-sdk-dynamodb = "=1.130.0"
aws-sdk-s3 = "=1.152.0"
log = "=0.4.34"
serde = { version = "=1.0.229", features = ["derive"] }
serde_json = "=1.0.151"
serde_yaml = "=0.9.34"
url = "=2.5.8"
chrono = "=0.4.45"
