[package]
name = "accel"
version = "0.1.0"
edition = "2021"
publish = false

[dependencies]
rdst = "*"
rayon = "*"
tobj = "*"
