[package]
name = "word_lobby"
version = "0.1.0"
edition = "2021"
publish = false

[dependencies]
actix-web = "4"
lazy_static = "1"
uuid = { version = "1", features = ["v4"] }
