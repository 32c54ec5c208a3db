[package]
name = "telecodex"
version = "0.1.0"
edition = "2021"
publish = false

[dependencies]
html-escape = "=0.2.15"
anyhow = "=1.0.104"
tokio = { version = "=1.54.1", features = ["macros", "rt-multi-thread", "process", "time", "sync"] }
tracing = "=0.1.44"
tracing-subscriber = { version = "=0.3.23", features = ["env-filter"] }
dotenvy = "=0.15.7"
uuid = { version = "=1.29.0", features = ["v7"] }
transcribe-rs = { version = "=0.3.12", features = ["onnx"] }

[dev-dependencies]
tempfile = "=3.27.0"
