[package]
name = "diffie_hellman"
version = "0.1.0"
edition = "2021"
publish = false

[dependencies]
num = { version = "*", features = ["rand"] }
base64 = "*"
sha2 = "*"
serde = { version = "*", features = ["derive"] }
serde_json = "*"
clap = { version = "*", features = ["derive"] }
rand = "*"
reqwest = { version = "*", default-features = false, features = ["blocking", "json"] }
