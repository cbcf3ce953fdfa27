[package]
name = "cfgmk"
version = "0.1.0"
edition = "2021"
publish = false

[dependencies]
chrono = { version = "0.4", default-features = false, features = ["std"] }
serde_yaml = "0.8"
structopt = "0.3"
tar = { version = "0.4", default-features = false }
trimmer = "*"
walkdir = "2"
