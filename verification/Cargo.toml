[package]
name = "pivoted_qr"
version = "0.1.0"
edition = "2021"
publish = false

[dependencies]
nalgebra = "=0.22.1"

[dev-dependencies]
approx = "=0.3.2"
