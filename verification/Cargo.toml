[package]
name = "manga_downloader"
version = "0.1.0"
edition = "2021"
publish = false

[dependencies]
zip = { version = "*", default-features = false }
rand = "0.8"
serde = { version = "*", features = ["derive"] }
serde_json = "*"
reqwest = { version = "*", default-features = false, features = ["json", "rustls-tls"] }
tokio = { version = "*", features = ["macros", "rt-multi-thread", "sync"] }
clap = { version = "*", features = ["derive"] }
dialoguer = "*"
crossterm = "*"
dirs = "*"
urlencoding = "*"
indicatif = "*"
