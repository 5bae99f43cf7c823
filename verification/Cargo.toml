[package]
name = "pythia"
version = "0.1.0"
edition = "2021"
publish = false

[dependencies]
bloomfilter = "*"
url = "2"
scraper = "*"
quick-xml = "*"
lopdf = "*"
pdf-extract = "*"
stop-words = "*"
rust-stemmers = "1"
serde = { version = "1", features = ["derive"] }
serde_json = "1"
ractor = { version = "*", features = ["cluster"] }
ractor_cluster = "*"
tokio = { version = "1", features = ["full"] }
tracing = "0.1"
tracing-subscriber = { version = "0.3", features = ["env-filter"] }
rand = "0.9"
uuid = { version = "1", features = ["v4"] }
dotenvy = "*"
reqwest = { version = "*", default-features = false }
axum = "*"
tower_governor = "*"
rusqlite = { version = "*", features = ["bundled"] }
futures = "0.3"
