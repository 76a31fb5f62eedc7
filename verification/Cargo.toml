[package]
name = "recstream"
version = "0.1.0"
edition = "2021"
publish = false

[dependencies]
bytes = "*"
actix-web = "*"
actix-http = "*"
sqlx = { version = "*", features = ["runtime-tokio", "postgres", "chrono"] }
ouroboros = "*"
futures = "*"
serde = { version = "*", features = ["derive"] }
serde_json = "*"
chrono = { version = "*", features = ["serde"] }
thiserror = "*"
dotenv = "*"
env_logger = "*"
log = "*"
anyhow = "*"
