[package]
name = "gdocs_backup"
version = "0.1.0"
edition = "2021"
publish = false

[dependencies]
clap = { version = "3", features = ["derive"] }
google-drive3 = "=3.0.0"
hyper = "0.14"
hyper-rustls = "0.22"
regex = "1"
serde = { version = "1", features = ["derive"] }
serde_json = "1"
tokio = { version = "1", features = ["macros", "rt-multi-thread"] }
