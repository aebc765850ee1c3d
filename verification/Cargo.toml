[package]
name = "bpolynom"
version = "0.1.0"
edition = "2021"
publish = false

[dependencies]
array-init = "2"
