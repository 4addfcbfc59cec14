[package]
name = "air-mir"
version = "0.1.0"
edition = "2021"
publish = false

[dependencies]
winter-math = "0.12"
rand = "0.9"
syn = { version = "2", features = ["full", "extra-traits"] }
quote = "1"
proc-macro2 = "1"
thiserror = "2"
