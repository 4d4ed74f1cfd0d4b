[package]
name = "wow_ripper"
version = "0.1.0"
edition = "2021"
publish = false

[dependencies]
casc-lib = "*"
serde = { version = "1", features = ["derive"] }
serde_json = "1"
thiserror = "*"
rfd = "*"
