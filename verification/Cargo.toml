[package]
name = "vaire"
version = "0.1.0"
edition = "2021"
publish = false

[dependencies]
acdc-parser = "*"
anstream = "*"
anstyle = "1"
clap = { version = "4", features = ["derive"] }
serde = { version = "1", features = ["derive"] }
serde_json = "1"

[dev-dependencies]
tempfile = "3"
