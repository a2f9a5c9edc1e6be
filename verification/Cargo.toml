[package]
name = "makegen"
version = "1.0.0"
edition = "2021"
publish = false

[dependencies]
clap = "2.33"
walkdir = "2"
