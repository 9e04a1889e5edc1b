[package]
name = "arcanum"
version = "0.1.0"
edition = "2021"
publish = false

[dependencies]
serde_json = "1"
serde = { version = "1", features = ["derive"] }
clap = { version = "4", default-features = false, features = ["std", "derive"] }
envconfig = "0.11"
dashmap = "6"
futures = "0.3"
http = "1"
indexmap = "2"
tokio = { version = "1", features = ["rt-multi-thread", "macros", "net", "sync"] }
axum = { version = "0.8", default-features = false, features = ["tokio", "http1"] }
rmcp = { version = "3", features = ["server", "macros", "transport-streamable-http-server"] }
schemars = "1"
objectiveai-sdk = "2"
