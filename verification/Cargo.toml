[package]
name = "updater"
version = "0.1.0"
edition = "2021"
publish = false

[dependencies]
bstr = "1"
crossbeam-channel = "0.5"
pgp = "0.14"
ring = "0.17"
serde = "1"
ureq = { version = "2", features = ["json"] }
