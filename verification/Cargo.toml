[package]
name = "mzp"
version = "0.1.0"
edition = "2021"
publish = false

[dependencies]
codepage-437 = "*"
lexopt = "*"
