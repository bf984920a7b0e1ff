[package]
name = "mojibake_core"
version = "0.1.0"
edition = "2021"
publish = false

[dependencies]
encoding_rs = "0.8"
chardetng = "0.1"
unicode-script = "0.5"
sha2 = "0.10"
serde = { version = "1", features = ["derive"] }
