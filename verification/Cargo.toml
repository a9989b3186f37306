[package]
name = "zclip_core"
version = "0.1.0"
edition = "2021"
publish = false

[dependencies]
zellij-tile = "0.45.1"
