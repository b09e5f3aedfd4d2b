[package]
name = "txt_analize"
version = "0.1.0"
edition = "2021"
publish = false

[dependencies]
chrono = { version = "0.4", default-features = false, features = ["clock"] }
encoding_rs = "0.8"
rand = "0.8"
rustring_builder = "*"
