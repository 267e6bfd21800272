[package]
name = "roead"
version = "0.1.0"
edition = "2021"
publish = false

[dependencies]
base64 = "0.13"
lexical = "6"
byteorder = "1"
