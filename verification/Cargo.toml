[package]
name = "brioche"
version = "0.1.0"
edition = "2021"
publish = false

[dependencies]
anyhow = "*"
async-recursion = "*"
blake3 = "*"
hex = "*"
serde = { version = "*", features = ["derive"] }
sha2 = "*"
sqlx = { version = "*", default-features = false, features = ["runtime-tokio", "sqlite"] }
tokio = { version = "*", features = ["full"] }
toml = "*"
ulid = "*"
