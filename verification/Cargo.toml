[package]
name = "rust_note_search"
version = "0.1.0"
edition = "2021"
publish = false

[dependencies]
jieba-rs = "*"
unicode-width = "*"
serde = { version = "1", features = ["derive"] }
serde_json = "1"
walkdir = "2"
thiserror = "*"
clap = { version = "4", features = ["derive"] }
ratatui = "*"
dotenvy = "*"
lopdf = "*"
pdf-extract = "*"
open = "*"
rayon = "1"
reqwest = { version = "*", default-features = false, features = ["blocking", "json", "rustls-tls"] }

[dev-dependencies]
tempfile = "3"
