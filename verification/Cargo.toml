[package]
name = "faster_beamer"
version = "0.1.0"
edition = "2021"
publish = false

[dependencies]
clap = "2"
dirs = "5"
flate2 = "1"
hotwatch = "0.4"
indicatif = "0.17"
junction = "1"
log = "0.4"
md5 = "0.7"
pretty_env_logger = "0.5"
rayon = "1"
regex = "1"
symlink = "0.1"
tempfile = "3"
