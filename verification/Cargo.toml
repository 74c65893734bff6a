[package]
name = "rustdocs_mcp_server"
version = "0.1.0"
edition = "2021"
publish = false

[dependencies]
sha2 = "*"
tiktoken-rs = "*"
scraper = "*"
serde = { version = "*", features = ["derive"] }
serde_json = "*"
reqwest = { version = "*", default-features = false, features = ["blocking", "json", "rustls-tls"] }
dirs = "*"
walkdir = "*"
tempfile = "*"
toml = "*"
clap = { version = "*", features = ["derive"] }
dotenvy = "*"
