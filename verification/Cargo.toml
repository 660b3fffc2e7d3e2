[package]
name = "dsntk_feel_number"
version = "0.1.0"
edition = "2021"
publish = false

[dependencies]
fastnum = "=0.7.5"
reqwest = { version = "0.12", default-features = false, features = ["blocking", "json"] }
serde = { version = "1", features = ["derive"] }
