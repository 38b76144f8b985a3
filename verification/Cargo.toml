[package]
name = "terrainbasic"
version = "0.1.0"
edition = "2021"
publish = false

[dependencies]
cgmath = "=0.18.0"
gl = "=0.14.0"
glutin = "=0.26.0"
ndarray = "=0.15.6"
noise = "=0.7.0"
