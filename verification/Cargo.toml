[package]
name = "spine_render"
version = "0.1.0"
edition = "2021"
publish = false

[dependencies]
time = "0.1"
docopt = "1"
serde = { version = "1", features = ["derive"] }
spine = "*"
glium = "*"
image = { version = "*", default-features = false, features = ["png"] }
