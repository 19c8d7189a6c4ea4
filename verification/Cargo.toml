[package]
name = "wordnet_thesaurus"
version = "0.1.0"
edition = "2021"
publish = false

[dependencies]
anyhow = "*"
clap = { version = "*", features = ["derive", "env"] }
flate2 = "*"
futures-util = "*"
indicatif = "*"
meilisearch-sdk = "*"
reqwest = { version = "*", features = ["stream"] }
roxmltree = "*"
serde = { version = "*", features = ["derive"] }
tempfile = "*"
tokio = { version = "*", features = ["full"] }
