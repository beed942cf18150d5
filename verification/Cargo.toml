[package]
name = "bullet_shogi"
version = "0.1.0"
edition = "2021"
publish = false

[dependencies]
anyhow = "1"
bulletformat = "*"
structopt = "0.3"
