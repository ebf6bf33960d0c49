[package]
name = "memoire"
version = "0.1.0"
edition = "2021"
publish = false

[dependencies]
sha2 = "=0.10.9"
hex = "=0.4.3"
uuid = { version = "=1.29.0", features = ["v4"] }
serde = { version = "=1.0.229", features = ["derive"] }
serde_json = "=1.0.154"
pulldown-cmark = { version = "=0.12.2", default-features = false, features = ["html"] }
regex = "=1.13.1"
dirs = "=7.0.0"
walkdir = "=2.5.0"
serde_yaml = "=0.9.34"
quick-xml = "=0.38.4"
docx-rs = { version = "*", default-features = false }
