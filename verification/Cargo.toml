[package]
name = "tank_war_core"
version = "0.1.0"
edition = "2021"
publish = false

[dependencies]
noise = "0.7"
rand = "0.8"
line_drawing = "*"
