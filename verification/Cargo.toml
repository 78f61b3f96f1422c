[package]
name = "delayed_release"
version = "0.1.0"
edition = "2021"
publish = false

[dependencies]
anyhow = "*"
chrono = "*"
chrono-english = "*"
git2 = { version = "*", default-features = false }
git2_credentials = "*"
