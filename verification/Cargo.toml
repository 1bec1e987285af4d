[package]
name = "svgit"
version = "0.1.0"
edition = "2021"
publish = false

[dependencies]
image = "=0.24.9"
vtracer = "=0.6.5"
visioncortex = "=0.8.10"
axum = { version = "=0.7.9", features = ["multipart"] }
tokio = { version = "=1.54.1", features = ["rt-multi-thread", "macros", "net", "sync"] }
ort = { version = "=2.0.0-rc.10", default-features = false, features = ["load-dynamic"] }
