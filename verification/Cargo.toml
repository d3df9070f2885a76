[package]
name = "parsebuf"
version = "0.1.0"
edition = "2021"
publish = false

[dependencies]
stable_string_patterns_method = "*"
