[package]
name = "skv"
version = "0.1.0"
edition = "2021"
publish = false

[dependencies]
miette = "=7.6.0"
thiserror = "=2.0.21"

[dev-dependencies]
winnow = "0.7"
