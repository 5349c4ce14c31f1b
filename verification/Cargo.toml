[package]
name = "rustic_factors"
version = "0.1.0"
edition = "2021"
publish = false

[dependencies]
bnum = { version = "0.12.1", features = ["rand", "numtraits"] }
num-integer = "0.1.47"
num-traits = "0.2.19"
rand = "0.8"
