[package]
name = "minecraft_afk_bot"
version = "0.1.0"
edition = "2021"
publish = false

[dependencies]
flate2 = "1"
tokio = { version = "1", features = ["net", "io-util", "sync", "time", "rt-multi-thread"] }
fltk = "1"
chrono = "0.4"
bimap = "0.6"
lazy_static = "1"
