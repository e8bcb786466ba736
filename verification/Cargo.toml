[package]
name = "complgen"
version = "0.1.0"
edition = "2021"
publish = false

[dependencies]
anyhow = "=1.0.104"
hashbrown = "=0.13.2"
tempfile = "=3.27.0"

[dev-dependencies]
nom = "=7.1.3"
