[package]
name = "fiq"
version = "0.1.0"
edition = "2021"
publish = false

[dependencies]
bincode = "1.3"
blake3 = { version = "*", features = ["pure"] }
chrono = "*"
clap = { version = "*", features = ["derive"] }
dirs = "*"
globset = "*"
ignore = "*"
memmap2 = "*"
rayon = "*"
serde = { version = "*", features = ["derive"] }
serde_json = "*"
termcolor = "*"
