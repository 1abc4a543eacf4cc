[package]
name = "speedscope_gc"
version = "0.1.0"
edition = "2021"
publish = false

[dependencies]
gcollections = "*"
intervallum = "*"
serde = { version = "1", features = ["derive"] }
serde_json = "1"
