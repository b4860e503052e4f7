[package]
name = "stream_zipper"
version = "0.1.0"
edition = "2021"
publish = false

[dependencies]
miniz_oxide = "0.3"
nom = { version = "5", default-features = false, features = ["std"] }
