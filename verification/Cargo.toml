[package]
name = "tracing_logfmt"
version = "0.1.0"
edition = "2021"
publish = false

[dependencies]
time = { version = "0.3", features = ["formatting"] }
tracing = "0.1"
tracing-core = "0.1"
tracing-subscriber = "0.3"
