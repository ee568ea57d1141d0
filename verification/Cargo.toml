[package]
name = "spandoc_core"
version = "0.2.0"
edition = "2021"
publish = false

[dependencies]
proc-macro2 = "=1.0.107"
quote = "=1.0.47"
syn = { version = "=1.0.109", features = ["full", "fold", "visit"] }
tracing = "=0.1.44"
tracing-futures = "=0.2.5"
