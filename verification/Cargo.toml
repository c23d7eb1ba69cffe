[package]
name = "file_client"
version = "0.1.0"
edition = "2021"
publish = false

[dependencies]
reqwest = { version = "*", default-features = false, features = ["blocking"] }
structopt = { version = "*", features = ["paw"] }
paw = "*"

[dev-dependencies]
serde_json = "*"
