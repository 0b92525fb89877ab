[package]
name = "remule"
version = "0.1.0"
edition = "2021"
publish = false

[dependencies]
flate2 = "1"
tokio = { version = "1", features = ["rt-multi-thread", "macros", "net", "time"] }
sqlx = { version = "0.6", features = ["sqlite", "runtime-tokio-rustls"] }
structopt = "0.3"
tracing = "0.1"
tracing-subscriber = { version = "0.3", features = ["env-filter"] }
humantime = "2"
atty = "0.2"
either = "1"
futures = "0.3"
