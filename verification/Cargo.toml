[package]
name = "proto_gen"
version = "0.1.0"
edition = "2021"
publish = false

[dependencies]
clap = { version = "4", features = ["derive"] }
prost-build = "0.14"
tempfile = "3"
tonic-build = "0.14"
tonic-prost-build = "0.14"
