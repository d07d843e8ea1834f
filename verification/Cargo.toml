[package]
name = "workflow_verifier"
version = "0.1.0"
edition = "2021"
publish = false

[dependencies]
z3 = "=0.10.0"
rand = "=0.8.8"
rand_xorshift = "=0.3.0"
