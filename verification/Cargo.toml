[package]
name = "web_crawler"
version = "0.1.0"
edition = "2021"
publish = false

[dependencies]
regex = "1"
select = "0.6"
url = "2"
reqwest = "0.11"
actix-web = "4"
actix-cors = "0.6"
actix-files = "0.6"
clap = { version = "4", features = ["derive"] }
env_logger = "0.10"
log = "0.4"
serde = { version = "1", features = ["derive"] }
thiserror = "1"
