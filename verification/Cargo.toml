[package]
name = "crypto_primitives"
version = "0.1.0"
edition = "2021"
publish = false

[dependencies]
lambdaworks-math = "*"
primal = "0.3"
prime_factorization = "*"
rand = "0.8"
