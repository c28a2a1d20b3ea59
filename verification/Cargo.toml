[package]
name = "dircast"
version = "0.1.0"
edition = "2021"
publish = false

[dependencies]
base64-url = "*"
htpasswd-verify = "*"
rss = "*"
rust-s3 = "0.32"
serde = { version = "*", features = ["derive"] }
actix-web = { version = "*", default-features = false, features = ["macros", "cookies"] }
tokio = { version = "*", features = ["macros", "rt-multi-thread"] }
tera = { version = "*", default-features = false }
