[package]
name = "legendre"
version = "0.1.0"
edition = "2021"
publish = false

[dependencies]
num-bigint = "0.4"
num-rational = "0.4"
num-traits = "0.2"
factorial = "0.4.0"
compensated-summation = "0.3.1"
