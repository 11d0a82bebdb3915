[package]
name = "cpu_scheduler"
version = "0.1.0"
edition = "2021"
publish = false

[dependencies]
clearscreen = "*"
inquire = "0.7"
tabled = "0.16"
