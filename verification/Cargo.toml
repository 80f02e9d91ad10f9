[package]
name = "rind"
version = "0.1.0"
edition = "2021"
publish = false

[dependencies]
anyhow = "1"
clap = { version = "4", features = ["derive"] }
libc = "0.2"
nix = { version = "*", features = ["fs", "mount", "process", "signal"] }
once_cell = "1"
serde = { version = "1", features = ["derive"] }
toml = "*"
