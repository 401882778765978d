[package]
name = "pdf_merge"
version = "0.1.0"
edition = "2021"
publish = false

[dependencies]
lopdf = { version = "=0.31.0", default-features = false, features = ["nom_parser"] }
printpdf = "=0.7.0"
image = { version = "=0.24.9", default-features = false, features = ["png", "jpeg", "gif", "bmp", "webp"] }
rayon = "=1.12.0"
axum = { version = "=0.7.9", features = ["multipart"] }
tokio = { version = "=1.54.1", features = ["rt-multi-thread", "macros", "net"] }
tower-http = { version = "=0.5.2", features = ["trace"] }
tracing = "=0.1.44"
tracing-subscriber = "=0.3.23"
