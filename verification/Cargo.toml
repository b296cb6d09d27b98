[package]
name = "wikiscraper"
version = "0.1.0"
edition = "2021"
publish = false

[dependencies]
unicode-segmentation = "*"
clap = "*"
colored = "*"
kuchiki = "*"
reqwest = { version = "*", default-features = false, features = ["blocking"] }
url = "*"
