[package]
name = "lru_cache"
version = "0.1.0"
edition = "2021"
publish = false

[dependencies]
zip = { version = "*", default-features = false }
serde = { version = "*", features = ["derive"] }
serde_json = "*"
tokio = { version = "*", features = ["macros", "rt", "rt-multi-thread"] }
bytes = "*"
lambda_runtime = "*"
rusoto_core = { version = "*", default-features = false, features = ["rustls"] }
rusoto_lambda = { version = "*", default-features = false, features = ["rustls"] }

[dev-dependencies]
lru = "*"
