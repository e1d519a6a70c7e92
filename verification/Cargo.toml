[package]
name = "equation_solver"
version = "0.1.0"
edition = "2021"
publish = false

[dependencies]
colored = "=3.1.1"
