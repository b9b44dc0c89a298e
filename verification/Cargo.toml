[package]
name = "tgproc"
version = "0.1.0"
edition = "2021"
publish = false

[dependencies]
ansi_term = "0.12"
argparse = "0.2"
walkdir = "2"
