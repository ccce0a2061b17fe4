[package]
name = "dungeon_crawler"
version = "0.1.0"
edition = "2021"
publish = false

[dependencies]
bracket-lib = "*"
ron = "*"
serde = { version = "*", features = ["derive"] }
