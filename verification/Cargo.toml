[package]
name = "tpt_core"
version = "0.1.0"
edition = "2021"
publish = false

[dependencies]
anyhow = "1"
axum = "0.7"
base64 = "0.22"
bincode = "1.3"
bloomfilter = "1"
bytemuck = { version = "1", features = ["derive"] }
bytes = "1"
cosmic-text = "0.12"
hmac = "0.12"
pbkdf2 = { version = "0.12", default-features = false, features = ["hmac"] }
pollster = "0.3"
rand = "0.8"
rustls = { version = "0.23", default-features = false, features = ["std", "tls12", "ring"] }
rustls-pemfile = "2"
serde = { version = "1", features = ["derive"] }
serde_json = "1"
sha2 = "0.10"
tokio = { version = "1", features = ["full"] }
tokio-rustls = { version = "0.26", default-features = false, features = ["tls12", "ring"] }
tracing = "0.1"
tracing-subscriber = { version = "0.3", features = ["env-filter"] }
ureq = { version = "2", features = ["json"] }
wgpu = "22"
web-sys = { version = "0.3", features = ["Window", "Storage"] }

[dev-dependencies]
tempfile = "3"
