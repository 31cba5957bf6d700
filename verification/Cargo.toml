[package]
name = "conway_game_of_life"
version = "0.1.0"
edition = "2021"
publish = false

[dependencies]
ansi-escapes = "*"
clap = { version = "4", features = ["derive"] }
rand = "0.8"
rayon = "1"
serde_json = "1"
