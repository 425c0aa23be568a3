[package]
name = "fan_controller"
version = "0.1.0"
edition = "2021"
publish = false

[dependencies]
hidapi = "*"
nvml-wrapper = "*"
structopt = "*"
