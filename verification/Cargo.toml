[package]
name = "ftl"
version = "0.1.0"
edition = "2021"
publish = false

[dependencies]
num-integer = "0.1"
log = "0.4"
simplelog = "0.12"
time = { version = "0.3", features = ["macros"] }
rand = { version = "0.8", features = ["small_rng"] }
byte-unit = "4"
