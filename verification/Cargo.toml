[package]
name = "pdf_merge"
version = "0.1.0"
edition = "2021"
publish = false

[dependencies]
lopdf = "*"
tauri = { version = "2", default-features = false }

[dev-dependencies]
tempfile = "3"
