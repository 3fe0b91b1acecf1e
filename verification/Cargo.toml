[package]
name = "hashcrypt"
version = "0.1.0"
edition = "2021"
publish = false

[dependencies]
embassy-futures = "0.1"
embassy-hal-internal = "0.2"
mimxrt685s-pac = { version = "*", default-features = false }
