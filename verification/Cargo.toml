[package]
name = "mahampreter"
version = "0.0.5"
edition = "2021"
publish = false

[dependencies]
ansi_term = "0.12"
clap = { version = "4", features = ["derive"] }
nom = "7.1"
rustyline = "12"
