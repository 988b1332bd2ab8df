[package]
name = "mirrorlog"
version = "0.1.0"
edition = "2021"
publish = false

[dependencies]
flate2 = "=1.1.10"
paw = "=1.0.0"
pretty-bytes = "=0.2.2"
structopt = { version = "=0.3.26", features = ["paw"] }
