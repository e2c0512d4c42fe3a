[package]
name = "file_tools"
version = "0.1.0"
edition = "2021"
publish = false

[dependencies]
base64 = "0.22"
md-5 = "0.10"
hex = "0.4"
walkdir = "2"
zip = { version = "2", default-features = false, features = ["deflate"] }
arboard = { version = "3", default-features = false }
serde = { version = "1", features = ["derive"] }
