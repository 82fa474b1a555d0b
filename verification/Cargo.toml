[package]
name = "heatmap"
version = "0.1.0"
edition = "2021"
publish = false

[dependencies]
histogram = "0.6"
time = "0.1"
