[package]
name = "power_supply"
version = "0.1.0"
edition = "2021"
publish = false
