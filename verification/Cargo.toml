[package]
name = "automation"
version = "0.1.0"
edition = "2021"
publish = false

[dependencies]
wide = "=1.7.1"
image = { version = "=0.24.9", default-features = false, features = ["png"] }
scrap = "=0.5.0"
tfc = "=0.7.0"
