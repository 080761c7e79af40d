[package]
name = "bangdream_optimize"
version = "0.1.0"
edition = "2021"
publish = false

[dependencies]
aes = "0.8"
md-5 = "0.10"
base64 = "0.22"
rand = "0.8"
rsa = "0.9"
serde = { version = "1", features = ["derive"] }
serde_json = "1"
zip = { version = "2", default-features = false, features = ["deflate"] }
lettre = { version = "0.11", default-features = false, features = ["builder"] }
thiserror = "2"
tokio = { version = "1", features = ["macros", "rt-multi-thread", "net"] }
axum = "0.8"
tracing = "0.1"
tracing-subscriber = "0.3"
