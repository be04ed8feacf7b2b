[package]
name = "mumo_ingest"
version = "0.1.0"
edition = "2021"
publish = false

[dependencies]
actix-web = "4"
futures = "0.3"
log = "0.4"
pico-args = "0.5"
pretty_env_logger = "0.5"
querystring = "1.1"
serde = { version = "1", features = ["derive"] }
serde_json = "1"
