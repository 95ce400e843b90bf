[package]
name = "tripaint"
version = "0.1.0"
edition = "2021"
publish = false

[dependencies]
image = "0.23"
rand = "0.7"
rayon = "1"
structopt = "0.3"
gperftools = "0.2"
