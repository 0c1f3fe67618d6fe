[package]
name = "flatgraph"
version = "0.1.0"
edition = "2021"
publish = false

[dependencies]
clap = { version = "=4.6.7", features = ["derive"] }
gfa = "=0.10.1"
handlegraph = "=0.7.0-alpha.9"
memmap = "=0.7.0"
rayon = "=1.12.0"
