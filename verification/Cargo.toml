[package]
name = "rest_mocker"
version = "0.1.0"
edition = "2021"
publish = false

[dependencies]
regex = "1"
rocket = { version = "0.5", features = ["json"] }
rocket_okapi = { version = "0.9", features = ["swagger"] }
schemars = "0.8"
serde = { version = "1", features = ["derive"] }
serde_json = "1"
tokio = { version = "1", features = ["macros", "rt-multi-thread"] }
