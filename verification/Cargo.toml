[package]
name = "graph_components"
version = "0.1.0"
edition = "2021"

[dependencies]
rand = "0.9"
textplots = "*"
