[package]
name = "cloud_store"
version = "0.1.0"
edition = "2021"
publish = false

[dependencies]
flate2 = "1"
zip = { version = "0.6", default-features = false, features = ["deflate"] }
percent-encoding = "2"
rand = "0.8"
tide = "0.16"
surf = { version = "2", default-features = false, features = ["h1-client", "encoding"] }
async-std = { version = "1", features = ["attributes"] }
async-trait = "0.1"
serde = { version = "1", features = ["derive"] }
chrono = "0.4"
dotenv = "0.15"
