[package]
name = "overleaf-mcp"
version = "0.1.0"
edition = "2021"
publish = false

[dependencies]
chrono = "0.4"
clap = { version = "4", features = ["derive", "env"] }
color-eyre = "0.6"
dotenvy = "0.15"
regex = "1"
reqwest = { version = "0.12", default-features = false, features = ["rustls-tls", "json", "cookies", "multipart", "charset", "http2"] }
schemars = "1"
serde = { version = "1", features = ["derive"] }
serde_json = "1"
thiserror = "2"
tokio = { version = "1", features = ["full"] }
tracing = "0.1"
tracing-subscriber = { version = "0.3", features = ["env-filter"] }
