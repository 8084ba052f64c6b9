[package]
name = "cabal"
version = "0.1.0"
edition = "2021"
publish = false

[dependencies]
regex = "*"
serde = { version = "*", features = ["derive"] }
postcard = { version = "*", features = ["alloc"] }
anyhow = "*"
clap = { version = "*", features = ["derive"] }
