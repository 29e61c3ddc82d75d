[package]
name = "tabula"
version = "0.1.0"
edition = "2021"
publish = false

[dependencies]
anyhow = "1"
bincode = "1.3"
bitflags = "1.3"
crossterm = "0.27"
log = "0.4"
simplelog = "0.12"
unicode-width = "0.1"
