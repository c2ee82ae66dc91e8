[package]
name = "doc_core"
version = "0.1.0"
edition = "2021"
publish = false

[dependencies]
yrs = { version = "=0.26.0", features = ["sync"] }
base64 = "=0.22.1"
