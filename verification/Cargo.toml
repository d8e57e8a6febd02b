[package]
name = "atropos"
version = "0.1.0"
edition = "2021"
publish = false

[dependencies]
anyhow = "*"
clap = { version = "*", features = ["derive"] }
ctrlc = "*"
fb_procfs = "*"
hex = "*"
libbpf-rs = "*"
libc = "*"
log = "*"
simplelog = "*"
