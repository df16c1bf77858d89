[package]
name = "storyteller"
version = "0.1.0"
edition = "2021"
publish = false

[dependencies]
anyhow = "1"
reqwest = { version = "0.11", default-features = false, features = ["rustls-tls"] }
rusqlite = { version = "0.31", features = ["bundled"] }
serenity = "0.11"
tokio = { version = "1", features = ["macros", "rt-multi-thread"] }
toml = "0.8"
twee-v3 = "*"
uuid = { version = "1", features = ["v4"] }
