[package]
name = "nrf_sniffer"
version = "0.1.0"
edition = "2021"
publish = false

[dependencies]
bit-vec = "=0.10.1"
crc = "=3.4.0"
hex = "=0.4.3"
rustradio = "=0.6.2"
structopt = "=0.3.26"
ctrlc = "=3.5.2"
itertools = "=0.15.0"
