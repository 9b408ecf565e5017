[package]
name = "rag_search"
version = "0.1.0"
edition = "2021"
publish = false

[dependencies]
rust-stemmers = "=1.2.0"
stop-words = "=0.10.1"
anyhow = "=1.0.104"
tokio = { version = "=1.54.1", features = ["full"] }
axum = "=0.8.9"
serde = { version = "=1.0.229", features = ["derive"] }
serde_json = "=1.0.154"
rusqlite = { version = "=0.41.1", features = ["bundled"] }
fastembed = { version = "=7.5.0", default-features = false, features = ["ort-load-dynamic", "hf-hub-rustls-tls"] }
turbovec = "=1.1.2"
ureq = { version = "=3.5.1", features = ["json"] }
crossterm = "=0.29.0"
ratatui = "=0.30.2"
ratatui-macros = "=0.7.2"
