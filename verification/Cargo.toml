[package]
name = "termwindow_render"
version = "0.1.0"
edition = "2021"
publish = false

[dependencies]
anyhow = "1"
euclid = "0.22"
