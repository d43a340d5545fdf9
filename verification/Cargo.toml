[package]
name = "gpm"
version = "0.1.0"
edition = "2021"
publish = false

[dependencies]
path-absolutize = "=4.0.1"
clap = "=4.6.7"
ctrlc = "=3.5.2"
dirs = "=7.0.0"
inquire = "=0.9.4"
serde_json = "=1.0.151"
which = "=8.0.6"
