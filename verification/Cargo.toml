[package]
name = "truck_facto_rs"
version = "0.1.0"
edition = "2021"
publish = false

[dependencies]
chrono = "*"
levenshtein = "*"
linguist = "*"
