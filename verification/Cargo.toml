[package]
name = "fueled_spine"
version = "0.1.0"
edition = "2021"
publish = false

[dependencies]
timely = { version = "0.13", default-features = false }
