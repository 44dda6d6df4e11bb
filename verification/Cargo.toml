[package]
name = "crawl_core"
version = "0.1.0"
edition = "2021"
publish = false

[dependencies]
spider = { version = "*", default-features = false }
spider_transformations = "=2.39.13"
tokio = { version = "*", features = ["rt-multi-thread", "io-std", "io-util", "time", "sync"] }
