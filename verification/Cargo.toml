[package]
name = "leech"
version = "0.1.0"
edition = "2021"
publish = false

[dependencies]
sha1 = "0.6"
rustc-serialize = "0.3"
hyper = "0.10"
mio = "0.6"
