[package]
name = "credentials_helper"
version = "0.1.0"
edition = "2021"
publish = false

[dependencies]
anyhow = "*"
aws-config = "*"
aws-credential-types = "*"
aws-sdk-iam = "*"
aws-sdk-sts = "*"
aws-types = "*"
chrono = "*"
clap = { version = "*", features = ["derive"] }
dirs = "*"
humantime = "*"
serde = { version = "*", features = ["derive"] }
serde_json = "*"
tokio = { version = "*", features = ["macros", "rt-multi-thread"] }
tracing = "*"
tracing-subscriber = { version = "*", features = ["env-filter"] }
