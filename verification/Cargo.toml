[package]
name = "mental_poker"
version = "0.1.0"
edition = "2021"
publish = false

[dependencies]
crypto-bigint = { version = "=0.7.5", features = ["alloc", "getrandom"] }
crypto-primes = "=0.7.2"
getrandom = { version = "0.4", features = ["sys_rng"] }
