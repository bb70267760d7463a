[package]
name = "shortener"
version = "0.1.0"
edition = "2021"
publish = false

[dependencies]
rand = "=0.8.8"
actix-web = "=4.15.0"
actix-files = "=0.6.10"
handlebars = { version = "=4.5.0", features = ["dir_source"] }
env_logger = "=0.10.2"
serde = { version = "=1.0.229", features = ["derive"] }
