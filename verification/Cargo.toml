[package]
name = "tagmax"
version = "0.1.0"
edition = "2021"
publish = false

[dependencies]
lenient_semver = "*"
semver = "*"
serde = { version = "*", features = ["derive"] }
serde_json = "*"
clap = { version = "*", features = ["derive"] }
chrono = "*"
miette = "*"
reqwest = { version = "*", default-features = false, features = ["blocking", "json"] }
