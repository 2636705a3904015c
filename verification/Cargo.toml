[package]
name = "mandelbrot"
version = "0.1.0"
edition = "2021"
publish = false

[dependencies]
crossbeam = "0.8"
image = { version = "0.25", default-features = false, features = ["png"] }
num = "0.4"
regex = "1"
text-colorizer = "1"
