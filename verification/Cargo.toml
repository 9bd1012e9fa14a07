[package]
name = "archer_package_manager"
version = "0.1.0"
edition = "2021"
publish = false

[dependencies]
zip = { version = "0.6", default-features = false, features = ["deflate"] }
walkdir = "2"
clap = { version = "4", features = ["derive"] }
