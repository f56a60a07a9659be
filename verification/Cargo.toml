[package]
name = "novel_tools"
version = "0.1.0"
edition = "2021"
publish = false

[dependencies]
clap = { version = "4", features = ["derive"] }
colored = "2"
indicatif = "0.17"
maud = "*"
regex = "1"
reqwest = { version = "0.12", features = ["blocking"] }
rust-bert = { version = "*", default-features = false }
select = "0.6"
serde = { version = "1", features = ["derive"] }
serde_json = "1"
