[package]
name = "notestore"
version = "0.1.0"
edition = "2021"
publish = false

[dependencies]
multimap = "*"
chrono = "*"
aws-config = "*"
aws-sdk-dynamodb = "*"
lambda_http = "*"
matchit = "*"
nanoserde = "*"
tokio = { version = "*", features = ["macros", "rt"] }
tracing = "*"
tracing-subscriber = "*"
