[package]
name = "power_rankings"
version = "0.1.0"
edition = "2021"
publish = false

[dependencies]
futures = "*"
graphql_client = "*"
indicatif = "*"
lazy_static = "*"
reqwest = { version = "*", default-features = false, features = ["json"] }
serde = { version = "*", features = ["derive"] }
serde_json = "*"
tokio = { version = "*", features = ["macros", "rt-multi-thread"] }
