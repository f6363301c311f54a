[package]
name = "nix_du"
version = "0.1.0"
edition = "2021"
publish = false

[dependencies]
clap = "2"
fixedbitset = "0.4"
human-size = "*"
memchr = "2"
petgraph = { version = "0.6", default-features = false }

[dev-dependencies]
rand = "0.4"
