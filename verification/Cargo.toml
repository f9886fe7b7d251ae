[package]
name = "hack_hdsim_lib"
version = "0.1.0"
edition = "2021"
publish = false

[dependencies]
structopt = "0.3"
error-chain = "0.12"
