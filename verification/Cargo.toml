[package]
name = "crypto_balance"
version = "0.1.0"
edition = "2021"
publish = false

[dependencies]
chrono = "0.4"
hmac = "0.11"
sha2 = "0.9"
hex = "0.4"
serde = { version = "1", features = ["derive"] }
serde_json = "1"
bson = { version = "2", features = ["chrono-0_4"] }
mongodb = "2"
reqwest = { version = "0.11", default-features = false }
rocket = { version = "0.5.0-rc.1", features = ["json"] }
dotenv = "0.15"
