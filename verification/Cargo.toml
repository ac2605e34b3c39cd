[package]
name = "rustin"
version = "0.1.2"
edition = "2021"
publish = false

[dependencies]
regex = "1"
deser-hjson = "*"
serde = { version = "1", features = ["derive"] }
structopt = "0.3"
