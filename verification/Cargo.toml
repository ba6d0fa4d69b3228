[package]
name = "oxydized2048"
version = "0.1.0"
edition = "2021"
publish = false

[dependencies]
rand = "0.8"
rurel = "*"
requestty = "*"
serde = { version = "1", features = ["derive"] }
serde_any = "*"

[dev-dependencies]
fast-math = "*"
