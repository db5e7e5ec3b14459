[package]
name = "proseg"
version = "0.1.0"
edition = "2021"
publish = false

[dependencies]
clap = { version = "=4.6.7", features = ["derive"] }
geo = "=0.33.1"
indicatif = "=0.18.6"
itertools = "=0.15.0"
petgraph = "=0.8.3"
rand = "=0.10.3"
rayon = "=1.12.0"
