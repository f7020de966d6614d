[package]
name = "cps_server"
version = "0.1.0"
edition = "2021"
publish = false

[dependencies]
md5 = "=0.7.0"
url = "=2.5.8"
serde = { version = "=1.0.229", features = ["derive"] }
serde_derive = "=1.0.229"
serde_json = "=1.0.154"
futures = "=0.1.31"
actix-rt = "=0.2.6"
actix-files = "=0.1.7"
actix-web = { version = "=1.0.9", default-features = false, features = ["client"] }
time = "=0.1.44"
chrono = "=0.4.19"
