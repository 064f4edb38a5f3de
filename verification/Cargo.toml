[package]
name = "handletest"
version = "0.1.0"
edition = "2021"
publish = false

[dependencies]
handlegraph = "=0.7.0-alpha.9"
gfa = "=0.10.1"
