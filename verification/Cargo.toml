[package]
name = "termquiz"
version = "0.1.0"
edition = "2021"
publish = false

[dependencies]
chrono = "*"
sha2 = "*"
clap = { version = "*", features = ["derive"] }

[dev-dependencies]
serde_yaml = "*"
