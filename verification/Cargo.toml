[package]
name = "coinjoin_analyzer"
version = "0.1.0"
edition = "2021"
publish = false

[dependencies]
bloom = "*"
rand = "*"
rayon = "*"
serde = { version = "*", features = ["derive"] }
serde_json = "*"
rmp-serde = "*"
clap = "*"
