[package]
name = "z_primitive_roots"
version = "0.1.0"
edition = "2021"
publish = false

[dependencies]
divisors = "*"
flume = { version = "*", default-features = false }
number-theory = "*"
