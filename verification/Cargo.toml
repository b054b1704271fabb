[package]
name = "ledger_engine"
version = "0.1.0"
edition = "2021"
publish = false

[dependencies]
color-eyre = "0.6"
tokio = { version = "1", features = ["macros", "rt-multi-thread"] }
tracing-subscriber = { version = "0.3", features = ["env-filter"] }

[dev-dependencies]
borsh = "1"
