[package]
name = "emoji_search"
version = "0.1.0"
edition = "2021"
publish = false

[dependencies]
emojis = "*"
serde_json = "*"
