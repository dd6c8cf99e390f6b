[package]
name = "flood_reports"
version = "0.1.0"
edition = "2021"
publish = false

[dependencies]
csv = "1"
num-format = "0.4"
