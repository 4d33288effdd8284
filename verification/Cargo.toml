[package]
name = "lattice_maze"
version = "0.1.0"
edition = "2021"
publish = false

[dependencies]
arrayvec = "0.7"
rand = "0.8"
clap = { version = "4", features = ["derive"] }
crossterm = "*"
humantime = "2"
palette = "0.7"
