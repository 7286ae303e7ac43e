[package]
name = "crawl_engine"
version = "0.1.0"
edition = "2021"
publish = false

[dependencies]
case_insensitive_string = "=0.2.2"
clap = { version = "=4.6.7", features = ["derive", "env"] }
playwright = "=0.0.20"
spider = { version = "=1.97.3", features = ["budget"] }
warp = "=0.3.7"
