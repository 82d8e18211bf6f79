[package]
name = "article_engine"
version = "0.1.0"
edition = "2021"
publish = false

[dependencies]
toml = "*"
lru = "*"
comrak = "*"
serde = { version = "*", features = ["derive"] }
actix-web = "*"
log = "*"
env_logger = "*"
