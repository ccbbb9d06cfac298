[package]
name = "markforge"
version = "0.1.0"
edition = "2021"
publish = false

[dependencies]
quick-xml = "0.38"
htmd = "*"
zip = { version = "*", default-features = false, features = ["deflate"] }
pdf-extract = "*"
png = "*"
serde = { version = "1", features = ["derive"] }
serde_json = "1"
