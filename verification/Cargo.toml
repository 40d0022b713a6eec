[package]
name = "fragments_to_sam"
version = "0.1.0"
edition = "2021"
publish = false

[dependencies]
clap = { version = "*", features = ["derive"] }
noodles-bgzf = "*"
noodles-sam = "*"
