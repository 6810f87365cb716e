[package]
name = "g_raph"
version = "0.1.0"
edition = "2021"
publish = false

[dependencies]
rand = "0.8"
num-primes = "*"
num-bigint = "*"
num-traits = "*"
priority-queue = "*"
algebraics = "*"
itertools = "*"
