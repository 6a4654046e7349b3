[package]
name = "bbr_transport"
version = "0.1.0"
edition = "2021"
publish = false

[dependencies]
clap = "*"
log = "*"
simplelog = "*"

[dev-dependencies]
rand = "*"
