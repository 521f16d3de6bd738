[package]
name = "recommender"
version = "0.1.0"
edition = "2021"
publish = false

[dependencies]
redis = { version = "0.21", features = ["tokio-comp"] }
tokio = { version = "1", features = ["macros", "rt-multi-thread"] }
tonic = "0.8"
prost = "0.11"
futures = "0.3"
serde = { version = "1", features = ["derive"] }
dotenv = "0.15"
async-trait = "0.1"
config = { version = "0.11", default-features = false }
csv = "1"
