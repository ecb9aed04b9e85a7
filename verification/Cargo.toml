[package]
name = "sqlx_squash"
version = "0.1.0"
edition = "2021"
publish = false

[dependencies]
url = "2"
anyhow = "1"
sqlx = { version = "0.8", default-features = false, features = ["any"] }
