[package]
name = "steplock"
version = "0.1.0"
edition = "2021"
publish = false

[dependencies]
cel-interpreter = "*"
serde = { version = "1", features = ["derive"] }
serde_json = "1"
toml = "*"
uuid = { version = "1", features = ["v4"] }
chrono = "0.4"
dirs = "*"
same-file = "1"
clap = { version = "4", features = ["derive"] }
thiserror = "*"
polyhook = "*"

[dev-dependencies]
tempfile = "3"
