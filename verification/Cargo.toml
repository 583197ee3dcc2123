[package]
name = "zinnia_core"
version = "0.1.0"
edition = "2021"
publish = false

[dependencies]
regex = "1"
rusqlite = { version = "*", features = ["bundled"] }
notify = "*"
trash = "*"
serde = { version = "1", features = ["derive"] }
