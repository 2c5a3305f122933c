[package]
name = "imageboard"
version = "0.1.0"
edition = "2021"
publish = false

[dependencies]
sled = "0.34"
image = "*"
mime_guess = "2"
uuid = { version = "1", features = ["v4"] }
chrono = "0.4"
html-escape = "0.2"
actix-web = "4"
actix-files = "0.6"
actix-multipart = "*"
futures-util = "0.3"
serde = { version = "1", features = ["derive"] }
env_logger = "*"
log = "0.4"
