[package]
name = "toycoin"
version = "0.1.0"
edition = "2021"
publish = false

[dependencies]
axum = "*"
chrono = "*"
rand = "*"
serde = { version = "*", features = ["derive"] }
sha2 = "*"
tokio = { version = "*", features = ["macros", "rt-multi-thread", "net"] }
