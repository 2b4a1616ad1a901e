[package]
name = "cartographer"
version = "0.1.0"
edition = "2021"
publish = false

[dependencies]
petgraph = "0.8"
fixedbitset = "0.5"
rand = "0.9"
