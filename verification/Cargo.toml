[package]
name = "llm_readability"
version = "0.1.0"
edition = "2021"
publish = false

[dependencies]
auto_encoder = "*"
html5ever = "0.39"
markup5ever = "0.39"
tendril = "*"
tokio = { version = "1", features = ["rt", "io-util"] }
url = "2"
