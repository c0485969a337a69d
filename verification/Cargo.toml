[package]
name = "file_crawler"
version = "0.1.0"
edition = "2021"
publish = false

[dependencies]
md5 = "*"
uuid = { version = "*", features = ["v4"] }
clap = { version = "*", features = ["derive"] }
colored = "*"
console = "*"
dialoguer = "*"
dotenv = "*"
indicatif = "*"
regex = "*"
reqwest = { version = "*", default-features = false, features = ["json", "rustls-tls"] }
serde = { version = "*", features = ["derive"] }
serde_json = "*"
tabled = "*"
tokio = { version = "*", features = ["rt-multi-thread", "macros"] }
walkdir = "*"
qdrant-client = "*"
