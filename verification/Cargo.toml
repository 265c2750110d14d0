[package]
name = "ginger"
version = "0.1.0"
edition = "2021"
publish = false

[dependencies]
clap = "=2.34.0"
glib = "=0.20.12"
glib-sys = "=0.20.10"
poppler = "=0.6.0"
svg = "=0.18.0"
walkdir = "=2.5.0"
