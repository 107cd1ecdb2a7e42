[package]
name = "epub_tools"
version = "0.1.0"
edition = "2021"
publish = false

[dependencies]
quick-xml = "0.37"
zip = { version = "2", default-features = false, features = ["deflate"] }
anyhow = "1"
clap = { version = "4", features = ["derive"] }
