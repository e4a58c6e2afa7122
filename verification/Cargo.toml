[package]
name = "sessionize"
version = "0.1.0"
edition = "2021"
publish = false

[dependencies]
abomonation = "0.7"
timely = "0.12"
