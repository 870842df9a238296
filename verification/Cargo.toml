[package]
name = "quests"
version = "0.1.0"
edition = "2021"
publish = false

[dependencies]
anyhow = "*"
itertools = "*"
num = "*"
pathfinding = "*"
rayon = "*"
rustc-hash = "*"
