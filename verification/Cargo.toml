[package]
name = "anofox-bayes-core"
version = "0.1.0"
edition = "2021"
publish = false

[dependencies]
faer = "*"
rayon = "1"
statrs = "*"
