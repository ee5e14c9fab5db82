[package]
name = "spirt_passes"
version = "0.1.0"
edition = "2021"
publish = false

[dependencies]
rustc_data_structures = "*"
smallvec = "=1.16.4"
spirt = "=0.4.0"
