[package]
name = "rusty_ray_tracer"
version = "0.1.0"
edition = "2021"
publish = false

[dependencies]
rand = "0.8"
clap = { version = "4", features = ["derive"] }
serde = { version = "1", features = ["derive"] }
toml = "0.8"
nalgebra = "0.33"
tobj = "4"
exr = "1"
image = { version = "0.25", default-features = false, features = ["png"] }
indicatif = "0.17"
tracing = "0.1"
tracing-subscriber = "0.3"
