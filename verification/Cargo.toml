[package]
name = "sparkfun_samd21_mini"
version = "0.1.0"
edition = "2021"
publish = false

[dependencies]
atsamd21-hal = { version = "=0.3.1", features = ["samd21g18a", "unproven"] }
cortex-m = "=0.5.11"
