[package]
name = "office_space_split"
version = "0.1.0"
edition = "2021"
publish = false

[dependencies]
anyhow = "1"
inquire = { version = "=0.9.4", features = ["editor"] }
rand = "=0.8.8"
serde = { version = "1", features = ["derive"] }
serde_json = "1"
