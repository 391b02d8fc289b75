[package]
name = "pii_processor"
version = "0.1.0"
edition = "2021"
publish = false

[dependencies]
regex = "1"
sha2 = "0.10"
hex = "0.4"
once_cell = "1"
serde = { version = "1", features = ["derive"] }
thiserror = "*"
axum = { version = "*", default-features = false, features = ["json"] }
tower-service = "0.3"
worker = { version = "*", features = ["http", "axum"] }
console_error_panic_hook = "0.1"
