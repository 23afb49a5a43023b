[package]
name = "picross_solver"
version = "0.1.0"
edition = "2021"
publish = false

[dependencies]
argparse = "0.2.2"
sfml = "0.11.2"
