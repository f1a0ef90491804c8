[package]
name = "super_tabs"
version = "0.1.0"
edition = "2021"
publish = false

[dependencies]
unicode-width = "0.2"
serde = { version = "1", features = ["derive"] }
serde_json = "1"
zellij-tile = "0.43"
