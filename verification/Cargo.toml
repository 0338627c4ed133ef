[package]
name = "social_indexer"
version = "0.1.0"
edition = "2021"
publish = false

[dependencies]
byteorder = "=1.5.0"
chrono = "=0.4.45"
serde = { version = "=1.0.229", features = ["derive"] }
serde_json = "=1.0.154"
clap = { version = "=4.6.7", features = ["derive"] }
dialoguer = "=0.12.0"
reqwest = { version = "=0.13.5", features = ["blocking", "json"] }
roux = { version = "=2.3.0", features = ["blocking"] }
rsdb = "=0.12.1"
