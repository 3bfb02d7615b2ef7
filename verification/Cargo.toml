[package]
name = "motioncam_decoder"
version = "0.1.0"
edition = "2021"
publish = false

[dependencies]
memmap2 = "*"
rayon = "*"
serde_json = "*"
thiserror = "*"
wide = "*"
