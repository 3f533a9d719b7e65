[package]
name = "willow"
version = "0.1.0"
edition = "2021"
publish = false

[dependencies]
slab = "=0.4.12"
glam = "=0.24.2"
serde = { version = "=1.0.229", features = ["derive"] }
raqote = { version = "=0.8.5", default-features = false }
euclid = "=0.22.14"
stackblur-iter = { version = "=0.2.0", features = ["blend-srgb"] }
allsorts = "=0.14.2"
notosans = "=0.1.0"
ouroboros = "=0.17.2"
winit = "=0.28.7"
softbuffer = "=0.3.4"
chrono = "=0.4.45"
