[package]
name = "war_sim"
version = "0.1.0"
edition = "2021"
publish = false

[dependencies]
fastrand = "2"
comfy-table = "7"
serde_json = "1"
thousands = "0.2"
