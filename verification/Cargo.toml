[package]
name = "nara"
version = "0.1.0"
edition = "2021"
publish = false

[dependencies]
hdrhistogram = "7"
hyper = "0.13"
tokio = { version = "0.2", features = ["full"] }
async-timer = "0.7"
indicatif = "0.15"
csv = "1"
structopt = "0.3"
env_logger = "0.8"
pyo3 = "0.13"
rayon = "1"
