[package]
name = "mapper"
version = "0.1.0"
edition = "2021"
publish = false

[dependencies]
itertools = "*"
log = "*"
serde = { version = "*", features = ["derive"] }
serde_json = "*"
clap = "*"
flexi_logger = "*"
tempfile = "*"
x11 = { version = "*", features = ["xlib"] }
