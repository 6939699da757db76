[package]
name = "desense"
version = "0.1.0"
edition = "2021"
publish = false

[dependencies]
regex = "=1.13.1"
quick-xml = "=0.31.0"
pdf-extract = "=0.7.12"
serde = { version = "=1.0.229", features = ["derive"] }
serde_json = "=1.0.154"
serde_yaml = "=0.9.34"
clap = { version = "=4.6.7", features = ["derive"] }
calamine = "=0.26.1"
csv = "=1.4.0"
zip = { version = "=2.5.0", default-features = false, features = ["deflate"] }
reqwest = { version = "=0.12.28", default-features = false, features = ["json"] }
