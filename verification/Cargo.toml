[package]
name = "mark_hulk"
version = "0.2.0"
edition = "2021"
publish = false

[dependencies]
pulldown-cmark = { version = "0.12", default-features = false, features = ["html"] }
syntect = { version = "5", default-features = false, features = ["default-fancy"] }
walkdir = "2"
notify = "6"
async-channel = "2"
gtk4 = { version = "0.9", features = ["v4_10"] }
libadwaita = { version = "0.7", features = ["v1_4"] }
sourceview5 = "0.9"
pangocairo = "0.20"
