[package]
name = "fontgarden"
version = "0.1.0"
edition = "2021"
publish = false

[dependencies]
anyhow = "1"
clap = { version = "3", features = ["derive"] }
csv = "1"
norad = "*"
plist = "1"
serde = { version = "1", features = ["derive"] }
thiserror = "1"
