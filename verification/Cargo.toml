[package]
name = "jetty"
version = "0.1.0"
edition = "2021"
publish = false

[dependencies]
indexmap = "2"
itertools = "0.12"
noisy_float = "0.2"
num-traits = "0.2"
