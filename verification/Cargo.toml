[package]
name = "bit64"
version = "0.1.0"
edition = "2021"
publish = false

[dependencies]
bitvec = "1"
iced = { version = "0.13", default-features = false, features = ["tiny-skia"] }
