[package]
name = "word_frequency_analysis"
version = "0.1.0"
edition = "2021"
publish = false

[dependencies]
clearscreen = "*"
lazy_static = "*"
rayon = "*"
serde_json = "*"
