[package]
name = "js_block_tidy"
version = "0.1.0"
edition = "2021"
publish = false

[dependencies]
serde_json = { version = "1", features = ["preserve_order"] }
clap = "2"
rusqlite = { version = "0.31", features = ["bundled"] }
