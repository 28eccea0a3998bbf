[package]
name = "pgecore"
version = "0.1.0"
edition = "2021"
publish = false

[dependencies]
glam = "*"
bytemuck = { version = "1", features = ["derive"] }
thunderdome = "*"
anyhow = "1"
async-trait = "*"
futures = "*"
