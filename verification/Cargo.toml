[package]
name = "wiki_crawler"
version = "0.1.0"
edition = "2021"
publish = false

[dependencies]
once_cell = "1"
rand = "0.8"
regex = "1"
reqwest = "0.12"
tokio = { version = "1", features = ["fs", "io-util", "macros", "rt-multi-thread", "time"] }
