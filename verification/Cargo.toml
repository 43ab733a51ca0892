[package]
name = "wire"
version = "0.1.0"
edition = "2021"
publish = false

[dependencies]
base64 = "*"
darkbio-clock = "0.4"
darkbio-cobs = "1"
darkbio-crypto = { version = "0.19", features = ["cbor", "cose", "cwt", "xdsa", "xhpke"] }
darkbio-trust = "0.6"
memchr = "2"
prost = "0.14"
serde_json = "1"
thiserror = "2"
tracing = "0.1"
