[package]
name = "mdreader"
version = "0.1.0"
edition = "2021"
publish = false

[dependencies]
blake3 = "=1.8.7"
walkdir = "=2.5.0"
percent-encoding = "=2.3.2"
base64 = "=0.23.1"
mime_guess = "=2.0.5"
mermaid-rs-renderer = "=0.3.1"
serde = { version = "=1.0.229", features = ["derive"] }
eframe = { version = "=0.37.0", default-features = false, features = ["wgpu", "default_fonts", "x11", "persistence"] }
egui_commonmark = "=0.26.0"
fontdb = "=0.24.0"
rfd = "=0.17.2"
