[package]
name = "dlog"
version = "0.1.0"
edition = "2021"
publish = false

[dependencies]
sha2 = "0.10"
serde = { version = "1", features = ["derive"] }
thiserror = "1"
axum = "0.6"
tokio = { version = "1", features = ["macros", "rt-multi-thread"] }
