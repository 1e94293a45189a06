[package]
name = "cgt"
version = "0.1.0"
edition = "2021"
publish = false

[dependencies]
argh = "0.1"
chrono = "0.4"
color-eyre = "0.6"
csv = "1"
hex = "0.4"
hmac = "0.12"
log = "0.4"
rust_decimal = "1"
serde = { version = "1", features = ["derive"] }
sha2 = "0.10"
ureq = { version = "2", features = ["json"] }
url = "2"
