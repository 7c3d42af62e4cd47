[package]
name = "rs_outdated"
version = "0.1.0"
edition = "2021"
publish = false

[dependencies]
tokio = { version = "*", features = ["rt", "macros", "fs", "process", "io-util"] }
futures = "*"
serde = { version = "*", features = ["derive"] }
serde_json = "*"
fork = "*"
yansi = "*"
lazy_static = "*"
derive_more = { version = "*", features = ["display", "error"] }
