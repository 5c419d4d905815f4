[package]
name = "bqueue"
version = "0.1.0"
edition = "2021"
publish = false

[dependencies]
haphazard = "0.1"
