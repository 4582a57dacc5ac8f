[package]
name = "knockd"
version = "0.1.0"
edition = "2021"
publish = false

[dependencies]
argh = "*"
ctrlc = "*"
log = "*"
pcap = "*"
serde = { version = "*", features = ["derive"] }
serde_json = "*"
simple_logger = "*"
