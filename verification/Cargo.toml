[package]
name = "seamonkey"
version = "0.1.0"
edition = "2021"
publish = false

[dependencies]
async_zip = { version = "*", features = ["tokio", "deflate"] }
chrono = "*"
clap = { version = "*", features = ["derive"] }
env_logger = "*"
futures-lite = "*"
log = "*"
reqwest = { version = "*", default-features = false, features = ["rustls-tls", "stream"] }
sanitize-filename = "*"
sha256 = "*"
temp-dir = "*"
thiserror = "*"
tokio = { version = "*", features = ["full"] }
tokio-util = { version = "*", features = ["compat", "io"] }
url = "*"
uuid = { version = "*", features = ["v4"] }
