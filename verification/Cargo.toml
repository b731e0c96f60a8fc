[package]
name = "libtfce"
version = "0.1.0"
edition = "2021"
publish = false

[dependencies]
byteorder = "1"
rand = "0.4"
clap = "2"
num_cpus = "1"
jobsteal = "*"
