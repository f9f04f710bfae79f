[package]
name = "voterium_backend"
version = "0.1.0"
edition = "2021"
publish = false

[dependencies]
actix-cors = "0.7"
actix-web = "4"
base64 = "0.22"
blake2 = "0.10"
chrono = "0.4"
dotenv = "0.15"
env_logger = "0.11"
jsonwebtoken = "9"
log = "0.4"
rand = "0.8"
serde = { version = "1", features = ["derive"] }
serde_json = "1"
tokio = { version = "1", features = ["sync", "rt-multi-thread", "macros"] }
