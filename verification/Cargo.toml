[package]
name = "planet_sim"
version = "0.1.0"
edition = "2021"
publish = false

[dependencies]
bevy_platform = "0.17"
hex_color = "3"
rand = "0.9"
serde = { version = "1", features = ["derive"] }
toml = "0.9"
