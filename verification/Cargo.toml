[package]
name = "can_decode"
version = "0.1.0"
edition = "2021"

[dependencies]
can-dbc = "*"
log = "*"
