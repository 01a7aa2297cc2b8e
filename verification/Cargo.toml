[package]
name = "minasan"
version = "0.1.0"
edition = "2021"
publish = false

[dependencies]
clap = { version = "*", features = ["derive"] }
log = "*"
simplelog = "*"

[dev-dependencies]
serde_json = "*"
