[package]
name = "brickworld"
version = "0.1.0"
edition = "2021"
publish = false

[dependencies]
radsort = "*"
bytemuck = { version = "*", features = ["derive"] }
image = { version = "*", default-features = false, features = ["png"] }
serde_json = "*"
rayon = "*"
once_cell = "*"
