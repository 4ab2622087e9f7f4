[package]
name = "piecewise"
version = "0.1.0"
edition = "2021"
publish = false

[dependencies]
intervals-general = "*"
