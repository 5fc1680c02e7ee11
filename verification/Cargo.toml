[package]
name = "flash_img_seeker"
version = "0.1.0"
edition = "2021"
publish = false

[dependencies]
anyhow = "*"
clap = "*"
colored = "*"
term_size = "*"
thiserror = "*"
