[package]
name = "subdb"
version = "0.1.0"
edition = "2021"
publish = false

[dependencies]
blake2-rfc = "0.2.18"
hash-db = "0.15.2"
hex = "0.4"
log = "0.4"
parity-scale-codec = "1.3"
parking_lot = "0.11"
