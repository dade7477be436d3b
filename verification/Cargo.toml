[package]
name = "zillanote"
version = "0.1.0"
edition = "2021"
publish = false

[dependencies]
chrono = "=0.4.45"
pulldown-cmark = { version = "=0.12.2", default-features = false, features = ["html"] }
lettre = { version = "=0.11.23", default-features = false, features = ["builder", "smtp-transport", "tokio1", "hostname", "tokio1-rustls", "rustls-tls"] }
serde = { version = "=1.0.229", features = ["derive"] }
serde_json = "=1.0.154"
tokio = { version = "=1.54.1", features = ["rt-multi-thread", "macros", "fs", "process", "time", "io-util", "sync"] }
reqwest = { version = "=0.12.28", default-features = false, features = ["json", "multipart", "rustls-tls"] }
hound = "=3.5.1"
dirs = "=5.0.1"
crc32fast = "=1.5.4"
sysinfo = "=0.33.1"
tracing = "=0.1.44"
thiserror = "=2.0.18"
strum = { version = "=0.26.3", features = ["derive"] }
tracing-subscriber = { version = "0.3", features = ["env-filter"] }
ort = { version = "2.0.0-rc.10", default-features = false, features = ["load-dynamic"] }
