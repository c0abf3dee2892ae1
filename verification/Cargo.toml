[package]
name = "fajr_kernel"
version = "0.1.0"
edition = "2021"
publish = false

[dependencies]
bit_field = "=0.10.3"
lazy_static = "=1.5.1"
limine = "=0.5.0"
spin = "=0.9.9"
