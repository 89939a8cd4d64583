[package]
name = "shinobu"
version = "0.1.0"
edition = "2021"
publish = false

[dependencies]
aes = "0.8"
argon2 = "0.5"
cbc = { version = "0.1", features = ["alloc", "block-padding"] }
clap = { version = "4", features = ["derive"] }
rand = "0.8"
xz2 = { version = "0.1", features = ["static"] }
zip = { version = "0.6", default-features = false }
