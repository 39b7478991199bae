[package]
name = "addonforge"
version = "0.2.0"
edition = "2021"
publish = false

[dependencies]
anyhow = "1"
base64 = "0.22"
dirs = "5"
futures-util = "0.3"
image = { version = "0.25", default-features = false, features = ["png", "jpeg", "tga"] }
image-blp = "1"
reqwest = { version = "0.12", default-features = false, features = ["json", "stream", "rustls-tls"] }
serde = { version = "1", features = ["derive"] }
serde_json = "1"
tokio = { version = "1", features = ["rt-multi-thread", "macros", "sync"] }
zip = { version = "2", default-features = false, features = ["deflate"] }
