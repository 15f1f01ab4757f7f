[package]
name = "kickoff"
version = "0.1.0"
edition = "2021"
publish = false

[dependencies]
clap = { version = "4", features = ["derive"] }
libc = "0.2"
widestring = "1"

[dev-dependencies]
rand = "0.8"
