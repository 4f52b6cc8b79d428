[package]
name = "format_tools"
version = "0.1.0"
edition = "2021"
publish = false

[dependencies]
aes = "0.8"
cbc = "0.1"
cipher = { version = "0.4", features = ["block-padding"] }
sha2 = "0.10"
regex = "1"
serde = { version = "1", features = ["derive"] }
serde_json = "1"
zip = "2"
tar = "0.4"
flate2 = "1"
xz2 = "0.1"
sevenz-rust = "0.6"
reqwest = { version = "0.12", features = ["stream"] }
futures = "0.3"
