[package]
name = "pcfg"
version = "0.1.0"
edition = "2021"
publish = false

[dependencies]
clap = { version = "=3.2.25", features = ["derive"] }
float-ord = "=0.3.2"
fxhash = "=0.2.1"
multimap = { version = "=0.8.3", default-features = false }
nom = "=7.1.3"
rayon = "=1.12.0"
