[package]
name = "sgr_bot"
version = "0.1.0"
edition = "2021"
publish = false

[dependencies]
rand = "*"
tokio = { version = "*", features = ["rt-multi-thread", "macros", "sync", "time"] }
fantoccini = "*"
serde = { version = "*", features = ["derive"] }
serde_json = "*"
sqlx = { version = "*", default-features = false, features = ["postgres", "runtime-tokio", "time"] }
anyhow = "*"
dotenv = "*"
toml = "*"
time = "*"
