[package]
name = "lepton_jpeg"
version = "0.1.0"
edition = "2021"
publish = false

[dependencies]
anyhow = "1"
bytemuck = "1"
log = "0.4"
wide = "0.7"

[dev-dependencies]
rayon = "1"
