[package]
name = "pyruse"
version = "0.1.0"
edition = "2021"
publish = false

[dependencies]
chrono = "*"
indexmap = { version = "*", features = ["serde"] }
lettre_email = "*"
quoted_printable = "*"
serde = { version = "*", features = ["derive"] }
serde_json = "*"
serde_yaml = "*"
