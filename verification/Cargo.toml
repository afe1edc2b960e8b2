[package]
name = "transit-ingest"
version = "0.1.0"
edition = "2021"
publish = false

[dependencies]
anyhow = "1"
arrow = { version = "=60.1.0", default-features = false }
chrono = "=0.4.45"
chrono-tz = "=0.10.4"
clap = { version = "4", features = ["derive", "env"] }
csv = "1"
parquet = { version = "=60.1.0", default-features = false, features = ["arrow", "zstd"] }
reqwest = { version = "0.12", default-features = false, features = ["blocking", "rustls-tls"] }
serde = { version = "1", features = ["derive"] }
serde_json = "1"
thiserror = "2"
toml = "=1.1.8"
tracing = "0.1"
tracing-subscriber = { version = "0.3", features = ["env-filter"] }
zip = { version = "7", default-features = false, features = ["deflate"] }

[dev-dependencies]
bytes = "1"
