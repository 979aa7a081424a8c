[package]
name = "bokfell"
version = "0.1.0"
edition = "2021"
publish = false

[dependencies]
toml = "=1.1.8"
serde_json = "=1.0.154"
similar = "=2.7.0"
serde = { version = "=1.0.229", features = ["derive"] }
serde_norway = "=0.9.42"
anyhow = "=1.0.104"
thiserror = "=2.0.21"
clap = { version = "=4.6.7", features = ["derive"] }
syn = { version = "=2.0.119", features = ["full", "visit", "extra-traits"] }
minijinja = "=2.24.0"
syntect = "=5.3.0"
asciidoc-parser = "=0.31.2"
asciidoc-html5 = "=0.2.3"
gix = { version = "=0.90.0", features = ["blocking-network-client"] }
axum = { version = "=0.8.9", features = ["ws"] }
tokio = { version = "=1.54.1", features = ["full"] }
notify-debouncer-full = "=0.7.0"
proc-macro2 = { version = "=1.0.107", features = ["span-locations"] }
