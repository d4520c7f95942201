[package]
name = "lldap_auth"
version = "0.1.0"
edition = "2021"
publish = false

[dependencies]
hmac = "*"
sha2 = "*"
chrono = "*"
actix-web = "*"
actix-files = "*"
actix-web-httpauth = "*"
serde = { version = "*", features = ["derive"] }
serde_json = "*"
anyhow = "*"
futures-util = "*"
log = "*"
