[package]
name = "psx_converter"
version = "0.1.0"
edition = "2021"
publish = false

[dependencies]
clap = { version = "4", features = ["derive"] }
env_logger = "*"
log = "*"
exoquant = "*"
glam = "*"
tobj = "*"
stb_image = "*"
rand = "0.8"
gl = "*"
glfw = "*"
memoffset = "*"
