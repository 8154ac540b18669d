[package]
name = "staticimp"
version = "0.1.0"
edition = "2021"
publish = false

[dependencies]
slug = "*"
md5 = "*"
sha256 = "*"
uuid = { version = "*", features = ["v4"] }
chrono = "*"
markdown-table = "*"
serde = { version = "*", features = ["derive"] }
serde_json = "*"
serde_yaml = "*"
actix-web = "*"
awc = "*"
gitlab = "*"
async-trait = "*"
parking_lot = "*"
form_urlencoded = "*"
serde_urlencoded = "*"
openssl = "*"
