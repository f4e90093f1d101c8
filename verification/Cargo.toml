[package]
name = "zz"
version = "0.1.0"
edition = "2021"
publish = false

[dependencies]
pest = "2"
pest_derive = "2"
rmp-serde = "1"
serde = { version = "1", features = ["derive"] }
clap = "2"
toml = "0.5"
log = "0.4"
env_logger = "0.6"
pbr = "1"
rayon = "1"
