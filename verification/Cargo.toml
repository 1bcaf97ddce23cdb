[package]
name = "e4x_read_only"
version = "0.1.0"
edition = "2021"
publish = false

[dependencies]
flate2 = "1"
gc-arena = "0.5"
quick-xml = "0.37"
