[package]
name = "gridpath"
version = "0.1.0"
edition = "2021"
publish = false

[dependencies]
bresenham = "0.1"
rayon = "1"
