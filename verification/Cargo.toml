[package]
name = "egui_graphs"
version = "0.1.0"
edition = "2021"
publish = false

[dependencies]
petgraph = { version = "0.6", default-features = false, features = ["stable_graph"] }
egui = { version = "0.23", default-features = false }
