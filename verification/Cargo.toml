[package]
name = "dircheck"
version = "0.1.0"
edition = "2021"
publish = false

[dependencies]
rusqlite = { version = "*", features = ["bundled"] }
tablestream = "*"
sha2 = "*"
