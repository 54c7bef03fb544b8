[package]
name = "wiki_graph"
version = "0.1.0"
edition = "2021"
publish = false

[dependencies]
clap = { version = "4", features = ["derive"] }
indicatif = { version = "0.17", features = ["rayon"] }
rayon = "1"
reqwest = { version = "0.12", features = ["blocking"] }
