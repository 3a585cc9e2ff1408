[package]
name = "entropic_object_store"
version = "0.1.0"
edition = "2021"
publish = false

[dependencies]
sha2 = "*"
flate2 = "*"
sodiumoxide = "*"
hex = "*"
base64 = "*"
pem = "*"
chrono = "*"
