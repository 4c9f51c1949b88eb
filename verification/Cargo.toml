[package]
name = "zkvm_verifier"
version = "0.1.0"
edition = "2021"
publish = false

[dependencies]
smtlib = "0.3"
tempfile = "3"
