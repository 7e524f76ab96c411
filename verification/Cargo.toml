[package]
name = "doghack"
version = "0.1.0"
edition = "2021"
publish = false

[dependencies]
rltk = { version = "0.8", default-features = false, features = ["crossterm"] }
serde = { version = "1", features = ["derive"] }
