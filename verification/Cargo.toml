[package]
name = "translation_inference"
version = "0.1.0"
edition = "2021"
publish = false

[dependencies]
url = "2"
subtle = "2"
zip = { version = "2", default-features = false, features = ["deflate"] }
axum = { version = "0.7", features = ["multipart"] }
tokio = { version = "1", features = ["full"] }
reqwest = { version = "0.12", default-features = false, features = ["json", "multipart", "stream", "rustls-tls"] }
reqwest-eventsource = "0.6"
futures = "0.3"
async-stream = "0.3"
serde = { version = "1", features = ["derive"] }
serde_json = "1"
base64 = "0.22"
tempfile = "3"
tracing = "0.1"
tracing-subscriber = { version = "0.3", features = ["env-filter"] }
dotenvy = "0.15"
rust-embed = "8"
mime_guess = "2"
uuid = { version = "1", features = ["v4"] }
anyhow = "1"
tower-http = { version = "0.5", features = ["compression-gzip", "cors"] }
genpdf = "0.2"
