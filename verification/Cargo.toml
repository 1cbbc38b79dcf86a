[package]
name = "covrs"
version = "0.1.0"
edition = "2021"
publish = false

[dependencies]
quick-xml = "0.30"
serde_json = "1"
chrono = "0.4"
rusqlite = { version = "0.31", features = ["bundled"] }
serde = { version = "1", features = ["derive"] }
thiserror = "1"
ureq = { version = "2", features = ["json"] }
clap = { version = "4", features = ["derive"] }
