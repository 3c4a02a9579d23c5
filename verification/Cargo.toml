[package]
name = "pdxscript-lsp"
version = "0.1.0"
edition = "2021"
publish = false

[dependencies]
anyhow = "=1.0.104"
home = "=0.5.12"
serde = { version = "=1.0.229", features = ["derive"] }
serde_json = "=1.0.154"
steamlocate = "=2.1.1"
tiger-lib = { version = "=1.19.0", default-features = false, features = ["vic3"] }
tokio = { version = "=1.54.1", features = ["full"] }
tower-lsp = "=0.20.0"
tracing = "=0.1.44"
tracing-appender = "=0.2.5"
tracing-subscriber = { version = "=0.3.23", features = ["env-filter"] }
