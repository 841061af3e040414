[package]
name = "diolingo"
version = "0.1.0"
edition = "2021"
publish = false

[dependencies]
anyhow = "1"
clap = { version = "4", features = ["derive"] }
gtk4 = { version = "*", features = ["v4_12"] }
gtk4-layer-shell = "*"
serde = { version = "1", features = ["derive"] }
serde_json = "1"
ureq = "3"
