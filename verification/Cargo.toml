[package]
name = "arrayref"
version = "0.1.0"
edition = "2021"
publish = false

[dev-dependencies]
quickcheck = { version = "*", default-features = false }
