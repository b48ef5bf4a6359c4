[package]
name = "cyclotomic_search"
version = "0.1.0"
edition = "2021"
publish = false

[dependencies]
gcd = "=2.3.0"
itertools = "=0.14.0"
