[package]
name = "pico"
version = "0.1.0"
edition = "2021"
publish = false

[dependencies]
serde = { version = "=1.0.229", features = ["derive"] }
serde_json = "=1.0.151"
jsonwebtoken = { version = "=11.1.0", features = ["rust_crypto"] }
mlua = { version = "=0.12.2", features = ["lua54", "vendored", "serialize"] }
url = "=2.5.8"
percent-encoding = "=2.3.2"
postgres = { version = "=0.19.14", features = ["with-serde_json-1"] }
handlebars = "=6.4.4"
chrono = "=0.4.45"
