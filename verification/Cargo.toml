[package]
name = "wikicrawler"
version = "0.1.0"
edition = "2021"
publish = false

[dependencies]
url = "2"
percent-encoding = "2"
scraper = "*"
futures = "0.3"
tokio = { version = "1", features = ["full"] }
reqwest = "*"
rocksdb = "*"
