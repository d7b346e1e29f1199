[package]
name = "wastewater"
version = "0.1.0"
edition = "2021"
publish = false

[dependencies]
chrono = "*"
chrono-tz = "*"
color-eyre = "*"
dotenvy = "*"
rusqlite = { version = "*", features = ["bundled"] }
tracing = "*"
tracing-subscriber = { version = "*", features = ["env-filter"] }
ureq = "*"
