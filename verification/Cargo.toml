[package]
name = "lumiterm"
version = "0.1.0"
edition = "2021"
publish = false

[dependencies]
vte = "0.13"
winit = "0.29"
softbuffer = "0.4"
arboard = { version = "3", default-features = false }
portable-pty = "0.8"
fontdue = "0.9"
