[package]
name = "langviz_core"
version = "0.1.0"
edition = "2021"
publish = false

[dependencies]
unicode-segmentation = "*"
rayon = "*"
petgraph = "*"
serde = { version = "*", features = ["derive"] }
serde_json = "*"
sprs = "*"
