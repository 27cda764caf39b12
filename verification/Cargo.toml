[package]
name = "iana-gen"
version = "0.1.0"
edition = "2021"
publish = false

[dependencies]
roxmltree = "0.20"
syn = { version = "2", features = ["full", "parsing"] }
ureq = "3"
