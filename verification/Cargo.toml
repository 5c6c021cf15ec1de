[package]
name = "arlang"
version = "0.1.0"
edition = "2021"
publish = false

[dependencies]
casual = "*"
colored = "*"
