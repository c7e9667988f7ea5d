[package]
name = "llrt_lib"
version = "0.1.0"
edition = "2021"
publish = false

[dependencies]
hyper = { version = "1", default-features = false }
itoa = "1"
ryu = "1"
rquickjs = { version = "0.9", features = ["macro"] }
