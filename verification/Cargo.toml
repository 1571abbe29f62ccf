[package]
name = "reed"
version = "1.0.0"
edition = "2021"
publish = false

[dependencies]
nom-bibtex = "*"
sha2 = "*"
regex = "*"
clap = { version = "*", features = ["derive"] }
directories = "*"
serde = { version = "*", features = ["derive"] }
serde_yaml = "*"
