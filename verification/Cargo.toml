[package]
name = "term3d"
version = "0.1.0"
edition = "2021"
publish = false

[dependencies]
cgmath = "=0.18.0"
crossterm = "=0.29.0"
nalgebra = "0.33"
parry3d = "=0.17.6"
