[package]
name = "lexsearch"
version = "0.1.0"
edition = "2021"
publish = false

[dependencies]
porter-stemmer = "*"
roman = "*"
uuid = { version = "*", features = ["v4"] }
serde = { version = "*", features = ["derive"] }
serde_json = "*"
