[package]
name = "state_group_reach"
version = "0.1.0"
edition = "2021"
publish = false

[dependencies]
clap = "*"
postgres = "*"
indicatif = "*"
