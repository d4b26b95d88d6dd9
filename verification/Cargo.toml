[package]
name = "poker"
version = "0.1.0"
edition = "2021"
publish = false

[dependencies]
numerica = { version = "=3.0.2", default-features = false, features = ["integer-malachite", "float-astro"] }
rand = "=0.9.5"
rust_decimal = "=1.43.0"
