[package]
name = "verdiff"
version = "0.1.0"
edition = "2021"
publish = false

[dependencies]
clap = { version = "*", features = ["derive"] }
quick-xml = "*"
ureq = "*"
zip = { version = "*", default-features = false, features = ["deflate"] }
