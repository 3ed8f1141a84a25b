[package]
name = "phlex_emmet_ls"
version = "0.1.0"
edition = "2021"
publish = false

[dependencies]
async-lsp = { version = "=0.2.4", features = ["tokio"] }
ropey = "=1.6.1"
tokio = { version = "=1.54.1", features = ["macros", "rt", "io-std"] }
tokio-util = { version = "0.7", features = ["compat"] }
tower = "=0.5.3"
tracing = "=0.1.44"
tracing-subscriber = "=0.3.23"
