[package]
name = "anko"
version = "0.1.0"
edition = "2021"
publish = false

[dependencies]
sha2 = "=0.10.9"
hex = "=0.4.3"
hmac = "=0.12.1"
serde = { version = "=1.0.229", features = ["derive"] }
serde_json = "=1.0.154"
toml = "=0.8.23"
anyhow = "=1.0.104"
clap = { version = "=4.6.7", features = ["derive"] }
dotenvy = "=0.15.7"
axum = { version = "=0.8.9", features = ["macros"] }
tokio = { version = "=1.54.1", features = ["full"] }
octocrab = "=0.44.1"
jsonwebtoken = "=9.3.1"
secrecy = "=0.10.3"
firestore = "=0.61.1"
ignore = "=0.4.34"
tempfile = "=3.27.0"
flate2 = "=1.1.10"
tar = "=0.4.46"
http-body-util = "=0.1.5"

[dev-dependencies]
regex = "=1.13.1"
