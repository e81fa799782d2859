[package]
name = "litecode"
version = "0.1.0"
edition = "2021"
publish = false

[dependencies]
base64 = "0.22"
lopdf = "*"
serde = { version = "1", features = ["derive"] }
serde_json = "1"
schemars = "*"
rmcp = { version = "*", features = ["server", "macros", "transport-io", "transport-streamable-http-server"] }
tokio = { version = "1", features = ["full"] }
tokio-util = "0.7"
axum = "*"
clap = { version = "4", features = ["derive"] }
globwalk = "*"
ignore = "*"
grep = "*"
thiserror = "*"
tracing-subscriber = "*"
