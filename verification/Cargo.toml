[package]
name = "uttt_ai"
version = "0.1.0"
edition = "2021"
publish = false

[dependencies]
rand = "0.4"
num_cpus = "1"
gtk = "0.3"
cairo-rs = "0.3"
