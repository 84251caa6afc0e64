[package]
name = "funkot_player"
version = "0.1.0"
edition = "2021"
publish = false

[dependencies]
serde = { version = "1", features = ["derive"] }
serde_json = "1"
unicode-normalization = "0.1"
tempfile = "3"
zip = "*"
symphonia = "*"
log = "0.4"
