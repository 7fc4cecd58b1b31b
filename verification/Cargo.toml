[package]
name = "idp"
version = "0.1.0"
edition = "2021"
publish = false

[dependencies]
jsonwebtoken = { version = "9", default-features = false }
chrono = { version = "0.4", features = ["serde"] }
regex = "1"
serde = { version = "1", features = ["derive"] }
serde_json = "1"
actix-web = { version = "4", default-features = false, features = ["macros"] }
env_logger = "0.10"
log = "0.4"
mime = "0.3"
anyhow = "1"
home = "0.5"
structopt = "0.3"
validator = { version = "0.16", features = ["derive"] }
