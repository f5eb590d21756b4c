[package]
name = "chat_common"
version = "0.1.0"
edition = "2021"
publish = false

[dependencies]
crossbeam = "0.8"
log = "0.4"
petgraph = "0.7"
prost = "0.13"
