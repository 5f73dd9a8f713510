[package]
name = "sigocr"
version = "0.1.0"
edition = "2021"
publish = false

[dependencies]
napi = { version = "2", default-features = false, features = ["napi4", "async"] }
napi-derive = "2"
pdf_oxide = "*"
rayon = "1"
thiserror = "*"
tokio = { version = "1", features = ["rt"] }
