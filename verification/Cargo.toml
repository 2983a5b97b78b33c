[package]
name = "fuzzy_phrase"
version = "0.1.0"
edition = "2021"
publish = false

[dependencies]
fst = "=0.4.7"
regex = "=1.13.1"
serde = { version = "=1.0.229", features = ["derive"] }
serde_json = "=1.0.154"
