[package]
name = "dune_ledger"
version = "0.1.0"
edition = "2021"
publish = false

[dependencies]
uuid = { version = "=1.27.0", features = ["v4"] }
google-sheets4 = { version = "=7.0.0+20251215", features = ["yup-oauth2-service-account"] }
hyper-rustls = "=0.27.10"
hyper-util = "=0.1.21"
poise = "=0.7.0"
tokio = { version = "=1.53.2", features = ["macros", "rt-multi-thread"] }
dotenvy = "=0.15.7"
once_cell = "=1.21.4"
serde_json = "=1.0.151"
chrono = "=0.4.45"
