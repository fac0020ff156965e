[package]
name = "downstairs"
version = "0.1.0"
edition = "2021"
publish = false

[dependencies]
anyhow = "1"
opentelemetry-jaeger = "0.16"
slog = "2.7"
slog-async = "2.7"
slog-term = "2.9"
structopt = "0.3"
tokio = { version = "1", features = ["macros", "rt-multi-thread", "net", "io-util"] }
tracing-opentelemetry = "0.17"
tracing-subscriber = "0.3"
uuid = "1"
