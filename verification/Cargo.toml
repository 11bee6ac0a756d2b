[package]
name = "git-varro"
version = "0.1.0"
edition = "2021"
publish = false

[dependencies]
anyhow = "1"
clap = { version = "4.5", default-features = false, features = ["std", "derive", "help", "usage", "error-context"] }
crossterm = "0.28"
git2 = { version = "0.20", default-features = false }
indicatif = { version = "0.17", default-features = false }
ratatui = { version = "0.29", default-features = false, features = ["crossterm"] }
rayon = "1"
