[package]
name = "thor_client"
version = "0.1.0"
edition = "2021"
publish = false

[dependencies]
tonic = "*"
prost = "*"
tokio = { version = "*", features = ["rt-multi-thread", "macros"] }
bytes = "*"
