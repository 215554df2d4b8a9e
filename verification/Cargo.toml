[package]
name = "repo_index"
version = "0.1.0"
edition = "2021"
publish = false

[dependencies]
zip = { version = "*", default-features = false, features = ["deflate"] }
serde = { version = "*", features = ["derive"] }
actix-web = "*"
qdrant-client = "*"
reqwest = { version = "*", default-features = false, features = ["json", "blocking"] }
rayon = "*"
openai-api-rs = "*"
