[package]
name = "package_checker"
version = "0.1.0"
edition = "2021"
publish = false

[dependencies]
arc-swap = "=1.9.3"
crc32c = "=0.6.9"
cvss = "=2.2.0"
ignore = "=0.4.34"
jsonc-parser = "=0.34.0"
memmap2 = "=0.9.12"
rayon = "=1.12.0"
regex = "=1.13.1"
serde = { version = "=1.0.229", features = ["derive"] }
serde_json = "=1.0.154"
thiserror = "=2.0.21"
tokio = { version = "=1.54.1", features = ["rt-multi-thread", "sync", "time", "macros", "io-std", "io-util"] }
tower-lsp-server = "=0.23.0"
tracing = "=0.1.44"
ureq = "=3.5.1"
zip = { version = "=9.2.2", default-features = false, features = ["deflate"] }
