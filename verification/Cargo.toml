[package]
name = "mvx"
version = "0.1.0"
edition = "2021"
publish = false

[dependencies]
anyhow = "*"
chrono = "*"
clap = { version = "*", features = ["derive"] }
clap-verbosity-flag = "*"
colored = "*"
ctrlc = "*"
env_logger = "*"
fs_extra = "*"
indicatif = "*"
libc = "*"
log = "*"
reflink = "*"
