[package]
name = "proximity_rank"
version = "0.1.0"
edition = "2021"
publish = false

[dependencies]
geoutils = "*"
serde = { version = "*", features = ["derive"] }
reqwest = { version = "*", default-features = false, features = ["json"] }
tokio = { version = "*", features = ["macros", "rt-multi-thread"] }
dotenv = "*"
