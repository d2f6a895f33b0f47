[package]
name = "toml_sort"
version = "0.1.0"
edition = "2021"
publish = false

[dependencies]
clap = { version = "4", features = ["derive"] }
glob = "0.3"
termcolor = "1"
