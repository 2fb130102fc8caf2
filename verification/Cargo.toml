[package]
name = "curp_log"
version = "0.1.0"
edition = "2021"
publish = false

[dependencies]
bincode = "1.3.3"
serde = "1"
tracing = "0.1"
