[package]
name = "sov-probe"
version = "0.4.0"
edition = "2021"
publish = false

[dependencies]
anyhow = "1"
aya = "0.13"
byteorder = "1"
chacha20poly1305 = "0.10"
clap = { version = "4", features = ["derive"] }
crc32fast = "1"
crossbeam-channel = "0.5"
etherparse = "0.13"
hex = "0.4"
libc = "0.2"
pcap-file = "2"
procfs = "0.17"
serde = { version = "1", features = ["derive"] }
tokio = { version = "1", features = ["full"] }
toml = "0.8"
tracing = "0.1"
tracing-subscriber = { version = "0.3", features = ["env-filter"] }
zenoh = { version = "1", default-features = false, features = ["transport_tcp"] }
