[package]
name = "servio"
version = "0.1.0"
edition = "2021"
publish = false

[dependencies]
percent-encoding = "2"
httpdate = "1"
file-id = "0.2"
anyhow = "1"
axum = "0.8"
http = "1"
tokio = { version = "1", features = ["full"] }
tower-http = { version = "0.6", features = ["fs", "compression-gzip", "compression-br", "set-header"] }
tower-livereload = "0.9"
clap = { version = "4", features = ["derive"] }
notify-debouncer-full = "0.5"
