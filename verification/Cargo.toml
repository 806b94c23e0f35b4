[package]
name = "pushshift_scraper"
version = "0.1.0"
edition = "2021"
publish = false

[dependencies]
url = "2"
ring = "0.17"
hex = "0.4"
reqwest = { version = "0.12", default-features = false, features = ["json"] }
tokio = { version = "1", features = ["rt-multi-thread", "macros", "time"] }
clap = { version = "4", features = ["derive"] }
serde = { version = "1", features = ["derive"] }
serde_json = "1"
log = "0.4"
pretty_env_logger = "0.5"
