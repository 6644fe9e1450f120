[package]
name = "puzzle_services"
version = "0.1.0"
edition = "2021"
publish = false

[dependencies]
rand = "0.9"
tokio = { version = "1", features = ["full"] }
wincode = { version = "*", features = ["derive"] }
sqlx = { version = "0.8", default-features = false, features = ["runtime-tokio", "sqlite"] }
anyhow = "1"
thiserror = "2"
log = "0.4"
env_logger = "0.11"
async-trait = "0.1"
