[package]
name = "pwn_keepass"
version = "0.1.0"
edition = "2021"
publish = false

[dependencies]
clap = { version = "4", features = ["derive"] }
hex = "0.4"
keepass = "0.7"
rpassword = "7"
sha1 = "0.10"
