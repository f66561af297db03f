[package]
name = "theseus"
version = "0.1.0"
edition = "2021"
publish = false

[dependencies]
fxhash = "0.2"
image = { version = "0.24", default-features = false, features = ["png"] }
clap = { version = "4", features = ["derive"] }
spinners = "4"
