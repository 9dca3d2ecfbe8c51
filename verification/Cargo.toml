[package]
name = "conflux"
version = "1.0.0"
edition = "2021"
publish = false

[dependencies]
anyhow = "1"
blake3 = "1"
chrono = "0.4"
clap = { version = "4", features = ["derive"] }
directories = "5"
git2 = "0.19"
globset = "0.4"
httpdate = "1"
humantime = "2"
libc = "0.2"
notify = "6"
notify-debouncer-full = "0.3"
percent-encoding = "2"
quick-xml = "0.36"
reqwest = { version = "0.12", default-features = false, features = ["blocking", "rustls-tls"] }
serde = { version = "1", features = ["derive"] }
serde_json = "1"
shellexpand = "3"
thiserror = "1"
tokio = { version = "1", features = ["io-util", "macros", "net", "rt-multi-thread", "signal", "sync", "time"] }
toml = "0.8"
tracing = "0.1"
tracing-subscriber = { version = "0.3", features = ["env-filter"] }
walkdir = "2"
