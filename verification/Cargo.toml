[package]
name = "csvit"
version = "0.1.0"
edition = "2021"
publish = false

[dependencies]
zip = { version = "*", default-features = false, features = ["deflate"] }
serde = { version = "*", features = ["derive"] }
serde_json = "*"
memmap2 = "*"
anyhow = "*"
directories = "*"
