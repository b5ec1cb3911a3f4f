[package]
name = "tag_aggregator"
version = "0.1.0"
edition = "2021"
publish = false

[dependencies]
serde = "*"
serde_derive = "*"
serde_json = "*"
rouille = "*"
reqwest = { version = "*", default-features = false, features = ["blocking"] }
