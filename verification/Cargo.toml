[package]
name = "profile_pipeline"
version = "0.1.0"
edition = "2021"
publish = false

[dependencies]
actix-web = "4"
env_logger = "*"
flate2 = "1"
pprof = { version = "*", features = ["protobuf-codec"] }
serde = { version = "1", features = ["derive"] }
tokio = { version = "1", features = ["time"] }
