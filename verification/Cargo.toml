[package]
name = "humctrl"
version = "0.1.0"
edition = "2021"
publish = false

[dependencies]
portaudio = "0.7"
hyper = "0.10"
time = "0.1"
clap = "2"
graph = "*"
