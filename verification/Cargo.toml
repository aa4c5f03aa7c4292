[package]
name = "xisfits"
version = "0.1.0"
edition = "2021"
publish = false

[dependencies]
quick-xml = "=0.22.0"
flate2 = "=1.1.10"
lz4_flex = "*"
log = "=0.4.34"
env_logger = "=0.11.11"
structopt = "=0.3.26"
