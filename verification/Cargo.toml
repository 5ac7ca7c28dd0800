[package]
name = "item_write"
version = "0.1.0"
edition = "2021"
publish = false

[dependencies]
aws-sdk-dynamodb = "*"
serde_dynamo = { version = "*", features = ["aws-sdk-dynamodb+1"] }
serde = { version = "*", features = ["derive"] }
futures = "*"
tokio = { version = "*", features = ["time"] }
tracing = "*"
