[package]
name = "n_puzzle"
version = "0.1.0"
edition = "2021"
publish = false

[dependencies]
ansi_term = "0.12"
clap = "4"
rand = "0.8"
