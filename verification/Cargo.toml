[package]
name = "hibitset"
version = "0.1.0"
edition = "2021"
publish = false

[dependencies]
atom = "0.3"
