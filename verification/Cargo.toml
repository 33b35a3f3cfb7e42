[package]
name = "ltc_modulate"
version = "1.3.0"
edition = "2021"
publish = false

[dependencies]
byteorder = "1"
clap = "2"
cpal = "0.6"
itertools = "0.8"
rand = "0.7"
rand_distr = "0.2"
