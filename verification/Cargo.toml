[package]
name = "ezviz"
version = "0.1.0"
edition = "2021"
publish = false

[dependencies]
chrono = "=0.4.45"
chrono-english = "=0.1.8"
zip = { version = "=0.6.6", default-features = false, features = ["deflate"] }
md5 = "=0.7.0"
sled = "0.34"
futures = "0.3"
tokio = { version = "0.2", features = ["macros", "rt-threaded", "sync"] }
telegram-bot = "0.7"
surf = "2"
image = { version = "0.23", default-features = false, features = ["png"] }
uuid = { version = "0.8", features = ["v4"] }
serde = { version = "1", features = ["derive"] }
thiserror = "1"
gstreamer = "0.16"
gstreamer-app = "0.16"
smol = "1"
