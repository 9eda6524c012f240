[package]
name = "osmflat-ext"
version = "0.1.0"
edition = "2021"
publish = false

[dependencies]
clap = { version = "4", features = ["derive"] }
flatdata = "*"
memmap2 = "0.9"
osmflat = "*"
rustc-hash = "2"
shapefile = "*"
tempfile = "3"
