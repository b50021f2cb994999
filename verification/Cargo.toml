[package]
name = "hazedumper"
version = "0.1.0"
edition = "2021"
publish = false

[dependencies]
serde = "1.0"
serde_derive = "1.0"
serde_json = "1.0"
log = "0.4"
simplelog = "0.12"
structopt = "0.3"
