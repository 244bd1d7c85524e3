[package]
name = "tcp_control"
version = "0.1.0"
edition = "2021"
publish = false

[dependencies]
etherparse = "0.21"
log = "0.4"
rand = "0.9"
