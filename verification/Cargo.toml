[package]
name = "travsr_lang"
version = "0.4.1"
edition = "2021"
publish = false

[dependencies]
anyhow = "1"
clang-sys = { version = "1", features = ["runtime", "clang_10_0"] }
protobuf = "3"
scip = "0.7"
serde = { version = "1", features = ["derive"] }
serde_json = "1"
tempfile = "3"
tracing = "0.1"
tracing-subscriber = { version = "0.3", features = ["env-filter"] }
travsr-core = "0.7"
travsr-plugin-sdk = "0.7"
