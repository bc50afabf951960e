[package]
name = "subbub"
version = "0.1.0"
edition = "2021"
publish = false

[dependencies]
anyhow = "*"
clap = { version = "*", features = ["derive"] }
itertools = "*"
log = "*"
once_cell = "*"
rayon = "*"
scraper = "*"
serde = { version = "*", features = ["derive"] }
simplelog = "*"
srtlib = "*"
