[package]
name = "lme_core"
version = "0.1.0"
edition = "2021"
publish = false

[dependencies]
nalgebra = "*"
serde_json = "*"
serde = { version = "*", features = ["derive"] }
tokio = { version = "*", features = ["full"] }
axum = "*"
clap = { version = "*", features = ["derive"] }
