[package]
name = "i3_lsp"
version = "0.1.0"
edition = "2021"
publish = false

[dependencies]
tower-lsp = "=0.20.0"
tokio = { version = "=1.54.1", features = ["macros", "rt-multi-thread", "io-std"] }
tracing = "=0.1.44"
tracing-appender = "=0.2.5"
tracing-subscriber = "=0.3.23"

[dev-dependencies]
nom = "8"
