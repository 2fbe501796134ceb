[package]
name = "inboxid"
version = "0.1.0"
edition = "2021"
publish = false

[dependencies]
anyhow = "1"
chrono = "0.4"
directories-next = "2"
imap = { version = "2", default-features = false }
maildir = "*"
mailparse = "*"
petgraph = "*"
rusqlite = { version = "*", features = ["bundled"] }
rustls-connector = "*"
serde = { version = "1", features = ["derive"] }
toml = "*"
