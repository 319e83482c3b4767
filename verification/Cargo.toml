[package]
name = "pack"
version = "0.1.0"
edition = "2021"
publish = false

[dependencies]
comrak = "*"
clap = { version = "*", features = ["derive"] }
crossterm = "*"
ratatui = "*"
printpdf = "*"
