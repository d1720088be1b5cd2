[package]
name = "beeper"
version = "0.1.0"
edition = "2021"
publish = false

[dependencies]
anyhow = "*"
as-bytes = "*"
axum = "*"
httlib-huffman = "*"
http = "*"
libc = "*"
plain = "*"
tokio = { version = "*", features = ["full"] }
tracing = "*"
tracing-subscriber = { version = "*", features = ["env-filter"] }
xbpf = "*"
