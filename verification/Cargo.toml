[package]
name = "solvers"
version = "0.1.0"
edition = "2021"
publish = false

[dependencies]
ascii = "*"
ascii-read = "*"
itertools = "*"
rayon = "*"
take-until = "*"
