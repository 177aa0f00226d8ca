[package]
name = "mdict_web"
version = "0.1.0"
edition = "2021"
publish = false

[dependencies]
mdict-rs = "*"
fst = "0.4"
url = "2"
percent-encoding = "2"
blake3 = { version = "1", features = ["pure"] }
regex = "1"
lol_html = "*"
mime_guess = "2"
mime = "0.3"
serde = { version = "1", features = ["derive"] }
serde_json = "1"
toml = "*"
walkdir = "2"
axum = "0.8"
tokio = { version = "1", features = ["full"] }
tower-http = { version = "0.6", features = ["request-id", "trace", "util"] }
http = "1"
bytes = "1"
futures-core = "0.3"
tokio-stream = "0.1"
moka = { version = "0.12", features = ["sync"] }
metrics = "*"
metrics-exporter-prometheus = { version = "*", default-features = false }
tracing = "0.1"
tracing-subscriber = { version = "0.3", features = ["env-filter", "fmt"] }
clap = { version = "4", features = ["derive", "env"] }
anyhow = "1"
thiserror = "*"
uuid = { version = "1", features = ["v7"] }
