[package]
name = "pear"
version = "0.1.0"
edition = "2021"
publish = false

[dependencies]
rustls = "=0.23.46"
webpki-roots = "=1.0.10"

[dev-dependencies]
rcgen = "0.13"
