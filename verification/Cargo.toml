[package]
name = "file_type_groups"
version = "0.1.0"
edition = "2021"
publish = false

[dependencies]
rusqlite = { version = "*", features = ["bundled"] }
plist = "1"
serde = { version = "1", features = ["derive"] }
core-foundation = "*"
tauri = { version = "2", default-features = false, features = ["wry"] }
