[package]
name = "hp_solver"
version = "0.1.0"
edition = "2021"
publish = false

[dependencies]
itertools = "0.13"
