[package]
name = "course_scheduler"
version = "0.1.0"
edition = "2021"
publish = false

[dependencies]
axum = "0.8"
env_logger = "0.11"
good_lp = { version = "1", default-features = false, features = ["highs"] }
itertools = "0.14"
log = "0.4"
serde = { version = "1", features = ["derive"] }
tokio = { version = "1", features = ["full"] }
