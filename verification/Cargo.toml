[package]
name = "receipt"
version = "0.1.0"
edition = "2021"
publish = false

[dependencies]
hmac = "0.12"
sha2 = "0.10"
axum = "0.8"
chrono = "0.4"
clap = { version = "4", features = ["derive", "env"] }
image = { version = "0.25", default-features = false, features = ["png", "jpeg", "gif", "bmp", "webp"] }
reqwest = { version = "0.12", default-features = false, features = ["json", "rustls-tls"] }
rusb = { version = "0.9", features = ["vendored"] }
serde = { version = "1", features = ["derive"] }
serde_json = "1"
tiny-skia = "0.11"
tokio = { version = "1", features = ["rt-multi-thread", "macros", "net", "signal", "sync", "time"] }
