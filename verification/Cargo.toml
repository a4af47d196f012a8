[package]
name = "diveno"
version = "0.1.0"
edition = "2021"
publish = false

[dependencies]
rand = "=0.8.8"
rapier2d = "=0.17.2"
sdl2 = { version = "=0.35.2", features = ["mixer"] }
xsystem = "*"
