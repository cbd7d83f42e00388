[package]
name = "additional_slot_db"
version = "0.1.0"
edition = "2021"
publish = false

[dependencies]
prc-rs = "*"
