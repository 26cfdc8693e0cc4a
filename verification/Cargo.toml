[package]
name = "volume_element"
version = "0.1.0"
edition = "2021"
publish = false

[dependencies]
byteorder = "1"
num-traits = "0.2"
safe-transmute = "0.10"
