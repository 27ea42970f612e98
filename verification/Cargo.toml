[package]
name = "plagiarism_detector"
version = "0.1.0"
edition = "2021"
publish = false

[dependencies]
jieba-rs = "0.6"
serde = { version = "1", features = ["derive"] }
serde_json = "1"
rocket = { version = "0.5", features = ["json"] }
sea-orm = { version = "0.12", default-features = false, features = ["macros", "with-json", "sqlx-sqlite", "runtime-tokio-rustls"] }
sea-orm-migration = { version = "0.12", default-features = false, features = ["runtime-tokio-rustls", "sqlx-sqlite"] }
sea-orm-rocket = "0.5"
tokio = { version = "1", features = ["full"] }
async-trait = "0.1"
